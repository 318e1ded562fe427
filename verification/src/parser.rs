//! Reading a `.kicad_sch` schematic: its library symbols with their pins,
//! and the symbols placed on the sheet.
//!
//! Coordinates and angles are fixed-point integers in ten-thousandths (see
//! `text::SCALE`): a coordinate of 94.92 mm is held as 949200.

use vstd::prelude::*;
use crate::sexpr::{
    can_tokenize, atom, atom_at, atom_text, child_atom, children, children_of, field_atom, find_child,
    find_tagged, has_tag, lemma_list_model, models, parse_sexprs, parse_seq, tag_is, tokenize,
    tokens_of, SExpr, SExprView,
};
use crate::order::{lemma_push_to_set, sorted_list, sorted_unique, string_views};
use crate::text::{
    contains, exec_contains, dec, dec_string, exec_replace_all, replace_all, all_digits, append_chars, chars_of, exec_is_digit, is_digit, number_or_zero, parse_decimal, angle_value, parse_angle,
    NUMBER_LIMIT,
};

verus! {

// ────────────────────────────────────────────
// Public types
// ────────────────────────────────────────────

/// A point on the sheet, in units of 0.1 µm.
#[derive(Debug, Clone, Copy, PartialEq, Eq, Structural)]
pub struct Vec2 {
    pub x: i64,
    pub y: i64,
}

/// The direction in which a pin sticks out of its symbol on the sheet.
#[derive(Debug, Clone, Copy, PartialEq, Eq, Structural)]
pub enum PinOutDir {
    Right,
    Left,
    Up,
    Down,
}

#[derive(Debug, Clone)]
pub struct LibPin {
    pub name: String,
    pub number: String,
    /// The connection point in library coordinates (Y up), 0.1 µm.
    pub rel_x: i64,
    pub rel_y: i64,
    /// The pin's angle in library coordinates, 0.0001°: 0 has the pin line
    /// pointing right from the connection point, 90 up, 180 left, 270 down.
    pub angle: i64,
    pub length: i64,
}

#[derive(Debug, Clone)]
pub struct LibSymbol {
    pub name: String,
    pub pins: Vec<LibPin>,
}

#[derive(Debug, Clone)]
pub struct SchSymbol {
    pub x: i64,
    pub y: i64,
    /// The rotation, 0.0001° (KiCad writes 0, 90, 180 or 270).
    pub angle: i64,
    pub mirror_x: bool,
    pub mirror_y: bool,
    pub lib_id: String,
    pub reference: String,
}

/// A parsed schematic. A library symbol name that occurs more than once in
/// `lib_symbols` stands for its last occurrence.
#[derive(Debug, Clone)]
pub struct Schematic {
    pub lib_symbols: Vec<LibSymbol>,
    pub symbols: Vec<SchSymbol>,
}

// ────────────────────────────────────────────
// Their mathematical views
// ────────────────────────────────────────────

pub struct PinView {
    pub name: Seq<char>,
    pub number: Seq<char>,
    pub rel_x: int,
    pub rel_y: int,
    pub angle: int,
    pub length: int,
}

pub struct LibSymbolView {
    pub name: Seq<char>,
    pub pins: Seq<PinView>,
}

pub struct SymbolView {
    pub x: int,
    pub y: int,
    pub angle: int,
    pub mirror_x: bool,
    pub mirror_y: bool,
    pub lib_id: Seq<char>,
    pub reference: Seq<char>,
}

pub struct SchematicView {
    pub lib_symbols: Map<Seq<char>, LibSymbolView>,
    pub symbols: Seq<SymbolView>,
}

impl View for LibPin {
    type V = PinView;

    open spec fn view(&self) -> PinView {
        PinView {
            name: self.name@,
            number: self.number@,
            rel_x: self.rel_x as int,
            rel_y: self.rel_y as int,
            angle: self.angle as int,
            length: self.length as int,
        }
    }
}

pub open spec fn pin_views(v: Seq<LibPin>) -> Seq<PinView> {
    v.map_values(|p: LibPin| p@)
}

impl View for LibSymbol {
    type V = LibSymbolView;

    open spec fn view(&self) -> LibSymbolView {
        LibSymbolView { name: self.name@, pins: pin_views(self.pins@) }
    }
}

pub open spec fn lib_symbol_views(v: Seq<LibSymbol>) -> Seq<LibSymbolView> {
    v.map_values(|l: LibSymbol| l@)
}

impl View for SchSymbol {
    type V = SymbolView;

    open spec fn view(&self) -> SymbolView {
        SymbolView {
            x: self.x as int,
            y: self.y as int,
            angle: self.angle as int,
            mirror_x: self.mirror_x,
            mirror_y: self.mirror_y,
            lib_id: self.lib_id@,
            reference: self.reference@,
        }
    }
}

pub open spec fn symbol_views(v: Seq<SchSymbol>) -> Seq<SymbolView> {
    v.map_values(|s: SchSymbol| s@)
}

/// Library symbols by name; a later one replaces an earlier one of the same
/// name.
pub open spec fn lib_map(v: Seq<LibSymbolView>) -> Map<Seq<char>, LibSymbolView>
    decreases v.len(),
{
    if v.len() == 0 {
        Map::empty()
    } else {
        lib_map(v.drop_last()).insert(v.last().name, v.last())
    }
}

impl View for Schematic {
    type V = SchematicView;

    open spec fn view(&self) -> SchematicView {
        SchematicView {
            lib_symbols: lib_map(lib_symbol_views(self.lib_symbols@)),
            symbols: symbol_views(self.symbols@),
        }
    }
}

pub open spec fn bounded(v: int) -> bool {
    -(NUMBER_LIMIT as int) <= v <= NUMBER_LIMIT as int
}

impl Schematic {
    /// Every number in the schematic is one that can be read from text:
    /// its magnitude is at most `NUMBER_LIMIT`.
    pub open spec fn wf(&self) -> bool {
        &&& forall|i: int|
            0 <= i < self.symbols@.len() ==> {
                let s = #[trigger] self.symbols@[i];
                bounded(s.x as int) && bounded(s.y as int) && bounded(s.angle as int)
            }
        &&& forall|i: int, j: int|
            0 <= i < self.lib_symbols@.len() && 0 <= j < self.lib_symbols@[i].pins@.len() ==> {
                let p = #[trigger] self.lib_symbols@[i].pins@[j];
                bounded(p.rel_x as int) && bounded(p.rel_y as int) && bounded(p.angle as int)
            }
    }
}


// ────────────────────────────────────────────
// What the file says: pins and library symbols
// ────────────────────────────────────────────

/// The value of a number atom, or 0 when it does not read as one.
pub open spec fn num(a: Seq<char>) -> int {
    number_or_zero(a)
}

/// A `(pin ... (at x y [angle]) (length l) (name "n") (number "k"))` list.
/// The position, a `name` and a `number` list are required; a missing angle
/// or length is 0, a missing name value is `~`, a missing number value is
/// empty.
pub open spec fn pin_of(e: SExprView) -> Option<PinView> {
    match children_of(e) {
        None => None,
        Some(ch) => match find_tagged(ch, "at"@) {
            None => None,
            Some(at) => match (atom_at(at, 1), atom_at(at, 2)) {
                (Some(xs), Some(ys)) => match (find_tagged(ch, "name"@), find_tagged(ch, "number"@)) {
                    (Some(name_e), Some(number_e)) => Some(
                        PinView {
                            name: match atom_at(name_e, 1) {
                                Some(n) => n,
                                None => "~"@,
                            },
                            number: match atom_at(number_e, 1) {
                                Some(n) => n,
                                None => ""@,
                            },
                            rel_x: num(xs),
                            rel_y: num(ys),
                            angle: match atom_at(at, 3) {
                                Some(a) => angle_num(a),
                                None => 0,
                            },
                            length: match field_atom(ch, "length"@, 0) {
                                Some(l) => num(l),
                                None => 0,
                            },
                        },
                    ),
                    _ => None,
                },
                _ => None,
            },
        },
    }
}

/// The pins in `items` and, recursively, in the `symbol` lists (units) among
/// them, in order.
pub open spec fn pins_in(items: Seq<SExprView>) -> Seq<PinView>
    decreases items,
{
    if items.len() == 0 {
        Seq::empty()
    } else {
        proof {
            vstd::seq::axiom_seq_subrange_decreases(items, 0, items.len() - 1);
            vstd::seq::axiom_seq_index_decreases(items, items.len() - 1);
        }
        pins_in(items.drop_last()) + item_pins(items.last())
    }
}

pub open spec fn item_pins(e: SExprView) -> Seq<PinView>
    decreases e,
{
    if has_tag(e, "pin"@) {
        match pin_of(e) {
            Some(p) => seq![p],
            None => Seq::empty(),
        }
    } else if has_tag(e, "symbol"@) {
        match e {
            SExprView::List(sub) => pins_in(sub),
            SExprView::Atom(_) => Seq::empty(),
        }
    } else {
        Seq::empty()
    }
}

/// A `(symbol "name" ...)` list of the library section.
pub open spec fn lib_symbol_of(e: SExprView) -> Option<LibSymbolView> {
    match children_of(e) {
        None => None,
        Some(ch) => match atom_at(e, 1) {
            None => None,
            Some(name) => Some(LibSymbolView { name, pins: pins_in(ch) }),
        },
    }
}

/// The value of a symbol's angle atom, truncated to ten-thousandths of a
/// degree, or 0 when it does not read as a number.
pub open spec fn angle_num(a: Seq<char>) -> int {
    match angle_value(a) {
        Some(v) => v,
        None => 0,
    }
}

/// Reads a symbol's angle atom.
fn read_angle(a: &String) -> (v: i64)
    ensures
        v as int == angle_num(a@),
        bounded(v as int),
{
    match parse_angle(a.as_str()) {
        Some(v) => v,
        None => 0,
    }
}

/// Reads a number atom.
fn read_num(a: &String) -> (v: i64)
    ensures
        v as int == num(a@),
        bounded(v as int),
{
    match parse_decimal(a.as_str()) {
        Some(v) => v,
        None => 0,
    }
}

/// Reads the atom at position `k` of a list.
fn atom_at_exec(e: &SExpr, k: usize) -> (r: Option<&String>)
    ensures
        match r {
            Some(a) => atom_at(e.model(), k as int) == Some(a@),
            None => atom_at(e.model(), k as int) is None,
        },
{
    match children(e) {
        Some(ch) => {
            if k < ch.len() {
                atom(&ch[k])
            } else {
                None
            }
        },
        None => None,
    }
}

fn parse_lib_pin(e: &SExpr) -> (r: Option<LibPin>)
    ensures
        match r {
            Some(p) => pin_of(e.model()) == Some(p@) && bounded(p.rel_x as int) && bounded(
                p.rel_y as int,
            ) && bounded(p.angle as int),
            None => pin_of(e.model()) is None,
        },
{
    let ch = children(e)?;
    let at = find_child(ch, "at")?;
    let xs = atom_at_exec(at, 1)?;
    let ys = atom_at_exec(at, 2)?;
    let rel_x = read_num(xs);
    let rel_y = read_num(ys);
    let angle = match atom_at_exec(at, 3) {
        Some(a) => read_angle(a),
        None => 0,
    };
    let length = match child_atom(ch, "length", 0) {
        Some(l) => read_num(l),
        None => 0,
    };
    let name_e = find_child(ch, "name")?;
    let number_e = find_child(ch, "number")?;
    let name = match atom_at_exec(name_e, 1) {
        Some(n) => n.clone(),
        None => String::from_str("~"),
    };
    let number = match atom_at_exec(number_e, 1) {
        Some(n) => n.clone(),
        None => String::from_str(""),
    };
    Some(LibPin { name, number, rel_x, rel_y, angle, length })
}


pub open spec fn pins_bounded(v: Seq<LibPin>) -> bool {
    forall|j: int|
        0 <= j < v.len() ==> {
            let p = #[trigger] v[j];
            bounded(p.rel_x as int) && bounded(p.rel_y as int) && bounded(p.angle as int)
        }
}

/// Appends the pins found in `ch` (see `pins_in`) to `pins`.
fn collect_pins(ch: &Vec<SExpr>, pins: &mut Vec<LibPin>)
    requires
        pins_bounded(old(pins)@),
    ensures
        pin_views(final(pins)@) == pin_views(old(pins)@) + pins_in(models(ch@)),
        pins_bounded(final(pins)@),
    decreases models(ch@),
{
    let ghost mc = models(ch@);
    let mut i: usize = 0;
    while i < ch.len()
        invariant
            i <= ch.len(),
            mc == models(ch@),
            pin_views(pins@) == pin_views(old(pins)@) + pins_in(mc.take(i as int)),
            pins_bounded(pins@),
        decreases ch.len() - i,
    {
        let item = &ch[i];
        let ghost before = pin_views(pins@);
        assert(mc.take(i + 1).drop_last() =~= mc.take(i as int));
        assert(mc.take(i + 1).last() == item.model());
        if tag_is(item, "pin") {
            if let Some(p) = parse_lib_pin(item) {
                pins.push(p);
                assert(pin_views(pins@) =~= before + seq![p@]);
            }
        } else if tag_is(item, "symbol") {
            if let Some(sub) = children(item) {
                proof {
                    vstd::seq::axiom_seq_index_decreases(mc, i as int);
                    if let SExprView::List(l) = mc[i as int] {
                        assert(l == models(sub@));
                    }
                }
                collect_pins(sub, pins);
            }
        }
        assert(pins_in(mc.take(i + 1)) == pins_in(mc.take(i as int)) + item_pins(mc[i as int]));
        assert(pin_views(pins@) == before + item_pins(mc[i as int]));
        assert(pin_views(pins@) =~= pin_views(old(pins)@) + pins_in(mc.take(i + 1)));
        i += 1;
    }
    assert(mc.take(i as int) =~= mc);
}

fn parse_lib_symbol(e: &SExpr) -> (r: Option<LibSymbol>)
    ensures
        match r {
            Some(l) => lib_symbol_of(e.model()) == Some(l@) && pins_bounded(l.pins@),
            None => lib_symbol_of(e.model()) is None,
        },
{
    let ch = children(e)?;
    let name = atom_at_exec(e, 1)?.clone();
    let mut pins: Vec<LibPin> = Vec::new();
    collect_pins(ch, &mut pins);
    assert(pin_views(Seq::<LibPin>::empty()) + pins_in(models(ch@)) =~= pins_in(models(ch@)));
    Some(LibSymbol { name, pins })
}


// ────────────────────────────────────────────
// What the file says: symbols on the sheet
// ────────────────────────────────────────────

/// Some `(mirror ...)` list among `ch` names `axis` after its tag.
pub open spec fn mirror_flag(ch: Seq<SExprView>, axis: Seq<char>) -> bool {
    exists|i: int, j: int|
        0 <= i < ch.len() && has_tag(ch[i], "mirror"@) && 1 <= j && #[trigger] atom_at(ch[i], j)
            == Some(axis)
}

/// The reference designator of a placed symbol:
/// `(instances (project ... (path ... (reference "U1"))))`.
pub open spec fn reference_of(ch: Seq<SExprView>) -> Option<Seq<char>> {
    match find_tagged(ch, "instances"@) {
        None => None,
        Some(inst) => match children_of(inst) {
            None => None,
            Some(inst_ch) => match find_tagged(inst_ch, "project"@) {
                None => None,
                Some(project) => match children_of(project) {
                    None => None,
                    Some(proj_ch) => match find_tagged(proj_ch, "path"@) {
                        None => None,
                        Some(path) => match children_of(path) {
                            None => None,
                            Some(path_ch) => field_atom(path_ch, "reference"@, 0),
                        },
                    },
                },
            },
        },
    }
}

/// A placed `(symbol (lib_id "...") (at x y [angle]) [(mirror x|y)] ...)`.
/// The library id and the position are required; a missing angle is 0 and
/// a missing reference is empty.
pub open spec fn symbol_of(e: SExprView) -> Option<SymbolView> {
    match children_of(e) {
        None => None,
        Some(ch) => match field_atom(ch, "lib_id"@, 0) {
            None => None,
            Some(lib_id) => match find_tagged(ch, "at"@) {
                None => None,
                Some(at) => match (atom_at(at, 1), atom_at(at, 2)) {
                    (Some(xs), Some(ys)) => Some(
                        SymbolView {
                            x: num(xs),
                            y: num(ys),
                            angle: match atom_at(at, 3) {
                                Some(a) => angle_num(a),
                                None => 0,
                            },
                            mirror_x: mirror_flag(ch, "x"@),
                            mirror_y: mirror_flag(ch, "y"@),
                            lib_id,
                            reference: match reference_of(ch) {
                                Some(r) => r,
                                None => Seq::empty(),
                            },
                        },
                    ),
                    _ => None,
                },
            },
        },
    }
}

fn extract_reference(ch: &Vec<SExpr>) -> (r: Option<String>)
    ensures
        match r {
            Some(s) => reference_of(models(ch@)) == Some(s@),
            None => reference_of(models(ch@)) is None,
        },
{
    let inst = children(find_child(ch, "instances")?)?;
    let project = find_child(inst, "project")?;
    let proj_ch = children(project)?;
    let path = find_child(proj_ch, "path")?;
    let path_ch = children(path)?;
    match child_atom(path_ch, "reference", 0) {
        Some(s) => Some(s.clone()),
        None => None,
    }
}

/// Whether a `(mirror ...)` list among `ch` names `axis`.
fn find_mirror(ch: &Vec<SExpr>, axis: &str) -> (r: bool)
    ensures
        r == mirror_flag(models(ch@), axis@),
{
    let ghost mc = models(ch@);
    let mut i: usize = 0;
    while i < ch.len()
        invariant
            i <= ch.len(),
            mc == models(ch@),
            forall|a: int, j: int|
                0 <= a < i && has_tag(mc[a], "mirror"@) && 1 <= j ==> #[trigger] atom_at(mc[a], j)
                    != Some(axis@),
        decreases ch.len() - i,
    {
        let item = &ch[i];
        if tag_is(item, "mirror") {
            if let Some(mc_i) = children(item) {
                let mut k: usize = 1;
                while k < mc_i.len()
                    invariant
                        1 <= k <= mc_i.len(),
                        i < ch.len(),
                        mc == models(ch@),
                        has_tag(mc[i as int], "mirror"@),
                        children_of(mc[i as int]) == Some(models(mc_i@)),
                        forall|j: int| 1 <= j < k ==> #[trigger] atom_at(mc[i as int], j) != Some(axis@),
                    decreases mc_i.len() - k,
                {
                    if let Some(a) = atom(&mc_i[k]) {
                        if crate::text::str_eq(a.as_str(), axis) {
                            assert(atom_at(mc[i as int], k as int) == Some(axis@));
                            assert(mirror_flag(mc, axis@));
                            return true;
                        }
                    }
                    k += 1;
                }
                assert forall|j: int| 1 <= j implies #[trigger] atom_at(mc[i as int], j) != Some(axis@) by {
                    if j >= k {
                    }
                }
            }
        }
        i += 1;
    }
    false
}

fn parse_sch_symbol(e: &SExpr) -> (r: Option<SchSymbol>)
    ensures
        match r {
            Some(sym) => symbol_of(e.model()) == Some(sym@) && bounded(sym.x as int) && bounded(
                sym.y as int,
            ) && bounded(sym.angle as int),
            None => symbol_of(e.model()) is None,
        },
{
    let ch = children(e)?;
    let lib_id = child_atom(ch, "lib_id", 0)?.clone();
    let at = find_child(ch, "at")?;
    let xs = atom_at_exec(at, 1)?;
    let ys = atom_at_exec(at, 2)?;
    let x = read_num(xs);
    let y = read_num(ys);
    let angle = match atom_at_exec(at, 3) {
        Some(a) => read_angle(a),
        None => 0,
    };
    let mirror_x = find_mirror(ch, "x");
    let mirror_y = find_mirror(ch, "y");
    let reference = match extract_reference(ch) {
        Some(r) => r,
        None => String::new(),
    };
    Some(SchSymbol { x, y, angle, mirror_x, mirror_y, lib_id, reference })
}


// ────────────────────────────────────────────
// The schematic
// ────────────────────────────────────────────

/// The library symbols defined by the `symbol` lists among `items`.
pub open spec fn lib_symbols_in(items: Seq<SExprView>) -> Seq<LibSymbolView>
    decreases items.len(),
{
    if items.len() == 0 {
        Seq::empty()
    } else {
        lib_symbols_in(items.drop_last()) + if has_tag(items.last(), "symbol"@) {
            match lib_symbol_of(items.last()) {
                Some(l) => seq![l],
                None => Seq::empty(),
            }
        } else {
            Seq::empty()
        }
    }
}

/// The placed symbols among `items`.
pub open spec fn symbols_in(items: Seq<SExprView>) -> Seq<SymbolView>
    decreases items.len(),
{
    if items.len() == 0 {
        Seq::empty()
    } else {
        symbols_in(items.drop_last()) + if has_tag(items.last(), "symbol"@) {
            match symbol_of(items.last()) {
                Some(s) => seq![s],
                None => Seq::empty(),
            }
        } else {
            Seq::empty()
        }
    }
}

/// The schematic that a text describes: the first top-level
/// `(kicad_sch ...)` list, its `lib_symbols` section and its placed
/// symbols.
pub open spec fn schematic_of(src: Seq<char>) -> Result<SchematicView, Seq<char>> {
    match tokens_of(src) {
        None => Err(Seq::empty()),
        Some(t) => {
            let exprs = parse_seq(t).0;
            match find_tagged(exprs, "kicad_sch"@) {
                None => Err("No kicad_sch found"@),
                Some(root) => match children_of(root) {
                    None => Err("kicad_sch is not a list"@),
                    Some(rc) => {
                        let lib_items = match find_tagged(rc, "lib_symbols"@) {
                            Some(sec) => match children_of(sec) {
                                Some(l) => l,
                                None => Seq::empty(),
                            },
                            None => Seq::empty(),
                        };
                        Ok(
                            SchematicView {
                                lib_symbols: lib_map(lib_symbols_in(lib_items)),
                                symbols: symbols_in(rc),
                            },
                        )
                    },
                },
            }
        },
    }
}

/// Whether `src` can be read at all: reading it as tokens comes to an end
/// (see `sexpr::tokens_from`). `parse_schematic` requires it.
pub fn tokenizable(src: &str) -> (r: bool)
    ensures
        r == (tokens_of(src@) is Some),
{
    let s = chars_of(src);
    can_tokenize(&s)
}

/// Parses the text of a `.kicad_sch` file.
///
/// Numbers are read as `f64::from_str` reads them and held as integers:
/// lengths in units of 0.1 µm and angles in units of 0.0001°, rounded to
/// the nearest (a symbol's angle is truncated toward zero, so that its
/// whole degrees are those of the `f64` value). A number that does not
/// read, is `inf` or `nan`, or exceeds `NUMBER_LIMIT` ten-thousandths reads
/// as 0.
pub fn parse_schematic(src: &str) -> (r: Result<Schematic, String>)
    requires
        tokens_of(src@) is Some,
    ensures
        match r {
            Ok(sch) => schematic_of(src@) == Ok::<SchematicView, Seq<char>>(sch@) && sch.wf(),
            Err(e) => schematic_of(src@) == Err::<SchematicView, Seq<char>>(e@),
        },
{
    let s = chars_of(src);
    let tokens = tokenize(&s);
    let (exprs, _) = parse_sexprs(&tokens, 0);
    assert(crate::sexpr::token_views(tokens@).skip(0) =~= crate::sexpr::token_views(tokens@));
    let root = match find_child(&exprs, "kicad_sch") {
        Some(r) => r,
        None => {
            return Err(String::from_str("No kicad_sch found"));
        },
    };
    let root_ch = match children(root) {
        Some(c) => c,
        None => {
            return Err(String::from_str("kicad_sch is not a list"));
        },
    };
    let ghost mrc = models(root_ch@);
    // lib_symbols
    let mut lib_symbols: Vec<LibSymbol> = Vec::new();
    let ghost lib_items: Seq<SExprView> = Seq::empty();
    if let Some(lib_sec) = find_child(root_ch, "lib_symbols") {
        if let Some(lib_ch) = children(lib_sec) {
            proof {
                lib_items = models(lib_ch@);
            }
            let mut i: usize = 0;
            while i < lib_ch.len()
                invariant
                    i <= lib_ch.len(),
                    lib_items == models(lib_ch@),
                    lib_symbol_views(lib_symbols@) == lib_symbols_in(lib_items.take(i as int)),
                    forall|k: int|
                        0 <= k < lib_symbols@.len() ==> pins_bounded(#[trigger] lib_symbols@[k].pins@),
                decreases lib_ch.len() - i,
            {
                let item = &lib_ch[i];
                assert(lib_items.take(i + 1).drop_last() =~= lib_items.take(i as int));
                assert(lib_items.take(i + 1).last() == item.model());
                let ghost before = lib_symbol_views(lib_symbols@);
                if tag_is(item, "symbol") {
                    if let Some(sym) = parse_lib_symbol(item) {
                        lib_symbols.push(sym);
                        assert(lib_symbol_views(lib_symbols@) =~= before + seq![sym@]);
                    }
                }
                assert(lib_symbol_views(lib_symbols@) =~= lib_symbols_in(lib_items.take(i + 1)));
                i += 1;
            }
            assert(lib_items.take(i as int) =~= lib_items);
        }
    }
    // symbols placed on the sheet
    let mut symbols: Vec<SchSymbol> = Vec::new();
    let mut i: usize = 0;
    while i < root_ch.len()
        invariant
            i <= root_ch.len(),
            mrc == models(root_ch@),
            symbol_views(symbols@) == symbols_in(mrc.take(i as int)),
            forall|k: int|
                0 <= k < symbols@.len() ==> {
                    let s = #[trigger] symbols@[k];
                    bounded(s.x as int) && bounded(s.y as int) && bounded(s.angle as int)
                },
        decreases root_ch.len() - i,
    {
        let item = &root_ch[i];
        assert(mrc.take(i + 1).drop_last() =~= mrc.take(i as int));
        assert(mrc.take(i + 1).last() == item.model());
        let ghost before = symbol_views(symbols@);
        if tag_is(item, "symbol") {
            if let Some(sym) = parse_sch_symbol(item) {
                symbols.push(sym);
                assert(symbol_views(symbols@) =~= before + seq![sym@]);
            }
        }
        assert(symbol_views(symbols@) =~= symbols_in(mrc.take(i + 1)));
        i += 1;
    }
    assert(mrc.take(i as int) =~= mrc);
    Ok(Schematic { lib_symbols, symbols })
}


// ────────────────────────────────────────────
// Pin name formats
// ────────────────────────────────────────────

/// The placeholder that a pin name format holds for the number.
pub open spec fn pct_d() -> Seq<char> {
    seq!['%', 'd']
}

/// The index of the last `c` in `s`, or -1.
pub open spec fn last_index_of(s: Seq<char>, c: char) -> int
    decreases s.len(),
{
    if s.len() == 0 {
        -1
    } else if s.last() == c {
        s.len() - 1
    } else {
        last_index_of(s.drop_last(), c)
    }
}

pub proof fn lemma_last_index_of(s: Seq<char>, c: char)
    ensures
        -1 <= last_index_of(s, c) < s.len(),
        last_index_of(s, c) >= 0 ==> s[last_index_of(s, c)] == c,
        forall|j: int| last_index_of(s, c) < j < s.len() ==> s[j] != c,
    decreases s.len(),
{
    if s.len() > 0 && s.last() != c {
        lemma_last_index_of(s.drop_last(), c);
        assert forall|j: int| last_index_of(s, c) < j < s.len() implies s[j] != c by {
            if j < s.len() - 1 {
                assert(s[j] == s.drop_last()[j]);
            }
        }
    }
}

/// `s` without its trailing decimal digits.
pub open spec fn trim_end_digits(s: Seq<char>) -> Seq<char>
    decreases s.len(),
{
    if s.len() > 0 && is_digit(s.last()) {
        trim_end_digits(s.drop_last())
    } else {
        s
    }
}

pub proof fn lemma_trim_end_digits(s: Seq<char>)
    ensures
        trim_end_digits(s).len() <= s.len(),
        trim_end_digits(s) == s.take(trim_end_digits(s).len() as int),
        all_digits(s.skip(trim_end_digits(s).len() as int)),
        trim_end_digits(s).len() > 0 ==> !is_digit(s[trim_end_digits(s).len() - 1]),
    decreases s.len(),
{
    if s.len() > 0 && is_digit(s.last()) {
        let t = s.drop_last();
        lemma_trim_end_digits(t);
        let m = trim_end_digits(t).len() as int;
        assert(t.take(m) =~= s.take(m));
        assert forall|i: int| 0 <= i < s.skip(m).len() implies is_digit(#[trigger] s.skip(m)[i]) by {
            if m + i < s.len() - 1 {
                assert(s.skip(m)[i] == t.skip(m)[i]);
            }
        }
        if m > 0 {
            assert(s[m - 1] == t[m - 1]);
        }
    } else {
        assert(s.take(s.len() as int) =~= s);
        assert(s.skip(s.len() as int) =~= Seq::<char>::empty());
    }
}

/// A pin name with its number replaced by `%d`: `A_{15}` gives `A_{%d}`
/// (a number in braces at the end), `A15` and `A_15` give `A%d` and `A_%d`
/// (trailing digits after something else); a name without such a number
/// gives nothing.
pub open spec fn pin_format(n: Seq<char>) -> Option<Seq<char>> {
    if n.len() > 0 && n.last() == '}' {
        let k = last_index_of(n, '{');
        if k >= 0 {
            let inner = n.subrange(k + 1, n.len() - 1);
            if inner.len() > 0 && all_digits(inner) {
                Some(n.take(k) + seq!['{', '%', 'd', '}'])
            } else {
                None
            }
        } else {
            None
        }
    } else {
        let t = trim_end_digits(n);
        if t.len() == 0 || t.len() == n.len() {
            None
        } else {
            Some(t + pct_d())
        }
    }
}

/// Replaces the number in a pin name by `%d` (see `pin_format`).
///
///   "A15"    -> "A%d"
///   "A_15"   -> "A_%d"
///   "A_{15}" -> "A_{%d}"
///   no number -> None
pub fn pin_name_to_format(name: &str) -> (r: Option<String>)
    ensures
        match r {
            Some(f) => pin_format(name@) == Some(f@),
            None => pin_format(name@) is None,
        },
{
    let s = chars_of(name);
    let n = s.len();
    if n > 0 && s[n - 1] == '}' {
        // the last '{'
        let mut k: usize = n;
        while k > 0 && s[k - 1] != '{'
            invariant
                k <= n == s.len(),
                forall|j: int| k <= j < n ==> s@[j] != '{',
            decreases k,
        {
            k -= 1;
        }
        proof {
            lemma_last_index_of(s@, '{');
            let li = last_index_of(s@, '{');
            if k > 0 && li > k - 1 {
                assert(s@[li] == '{');
            }
            if k > 0 && li < k - 1 {
                assert(s@[k - 1] == '{');
            }
            if k == 0 && li >= 0 {
                assert(s@[li] == '{');
            }
        }
        if k == 0 {
            return None;
        }
        let open = k - 1;
        // the digits between the braces
        let mut j = open + 1;
        while j < n - 1 && exec_is_digit(s[j])
            invariant
                open + 1 <= j <= n - 1,
                n == s.len(),
                forall|q: int| open + 1 <= q < j ==> is_digit(s@[q]),
            decreases n - 1 - j,
        {
            j += 1;
        }
        proof {
            let inner = s@.subrange(open + 1, n - 1);
            if j < n - 1 {
                assert(inner[j - open - 1] == s@[j as int]);
            } else {
                assert forall|q: int| 0 <= q < inner.len() implies is_digit(#[trigger] inner[q]) by {
                    assert(inner[q] == s@[open + 1 + q]);
                }
            }
        }
        if j < n - 1 || open + 1 == n - 1 {
            return None;
        }
        let mut out = String::new();
        append_chars(&mut out, &s, 0, open);
        out.append("{%d}");
        proof {
            reveal_strlit("{%d}");
            assert(s@.subrange(0, open as int) =~= s@.take(open as int));
            assert("{%d}"@ =~= seq!['{', '%', 'd', '}']);
        }
        Some(out)
    } else {
        let mut m: usize = n;
        assert(s@.take(n as int) =~= s@);
        while m > 0 && exec_is_digit(s[m - 1])
            invariant
                m <= n == s.len(),
                trim_end_digits(s@) == trim_end_digits(s@.take(m as int)),
            decreases m,
        {
            assert(s@.take(m as int).drop_last() =~= s@.take(m - 1));
            m -= 1;
        }
        assert(trim_end_digits(s@.take(m as int)) == s@.take(m as int));
        if m == 0 || m == n {
            return None;
        }
        let mut out = String::new();
        append_chars(&mut out, &s, 0, m);
        out.append("%d");
        proof {
            reveal_strlit("%d");
            assert(s@.subrange(0, m as int) =~= s@.take(m as int));
        }
        Some(out)
    }
}


// ────────────────────────────────────────────
// Looking things up
// ────────────────────────────────────────────

/// The index of the first element of `s` for which `p` holds, or `s.len()`.
pub open spec fn first_index<A>(s: Seq<A>, p: spec_fn(A) -> bool) -> int
    decreases s.len(),
{
    if s.len() == 0 {
        0
    } else if p(s[0]) {
        0
    } else {
        1 + first_index(s.skip(1), p)
    }
}

pub proof fn lemma_first_index<A>(s: Seq<A>, p: spec_fn(A) -> bool)
    ensures
        0 <= first_index(s, p) <= s.len(),
        forall|j: int| 0 <= j < first_index(s, p) ==> !p(#[trigger] s[j]),
        first_index(s, p) < s.len() ==> p(s[first_index(s, p)]),
    decreases s.len(),
{
    if s.len() > 0 && !p(s[0]) {
        lemma_first_index(s.skip(1), p);
        assert forall|j: int| 0 <= j < first_index(s, p) implies !p(#[trigger] s[j]) by {
            if j > 0 {
                assert(s[j] == s.skip(1)[j - 1]);
            }
        }
    }
}

/// The first placed symbol with the reference `r`.
pub open spec fn find_symbol_spec(v: SchematicView, r: Seq<char>) -> Option<SymbolView> {
    let k = first_index(v.symbols, |s: SymbolView| s.reference == r);
    if k < v.symbols.len() {
        Some(v.symbols[k])
    } else {
        None
    }
}

/// The library symbol of the first placed symbol with the reference `r`.
pub open spec fn symbol_lib(v: SchematicView, r: Seq<char>) -> Option<LibSymbolView> {
    match find_symbol_spec(v, r) {
        Some(sym) => if v.lib_symbols.contains_key(sym.lib_id) {
            Some(v.lib_symbols[sym.lib_id])
        } else {
            None
        },
        None => None,
    }
}

/// The names of the pins of the symbol with the reference `r`.
pub open spec fn pin_name_set(v: SchematicView, r: Seq<char>) -> Set<Seq<char>> {
    match symbol_lib(v, r) {
        Some(l) => l.pins.map_values(|p: PinView| p.name).to_set(),
        None => Set::empty(),
    }
}

/// The first pin of the symbol with the reference `r` that is named `pin`.
pub open spec fn find_pin_spec(v: SchematicView, r: Seq<char>, pin: Seq<char>) -> Option<PinView> {
    match symbol_lib(v, r) {
        Some(l) => {
            let k = first_index(l.pins, |p: PinView| p.name == pin);
            if k < l.pins.len() {
                Some(l.pins[k])
            } else {
                None
            }
        },
        None => None,
    }
}

pub proof fn lemma_lib_map_last(v: Seq<LibSymbolView>, k: int)
    requires
        0 <= k < v.len(),
        forall|j: int| k < j < v.len() ==> v[j].name != v[k].name,
    ensures
        lib_map(v).contains_key(v[k].name),
        lib_map(v)[v[k].name] == v[k],
    decreases v.len(),
{
    if k < v.len() - 1 {
        lemma_lib_map_last(v.drop_last(), k);
    }
}

pub proof fn lemma_lib_map_none(v: Seq<LibSymbolView>, n: Seq<char>)
    requires
        forall|j: int| 0 <= j < v.len() ==> v[j].name != n,
    ensures
        !lib_map(v).contains_key(n),
    decreases v.len(),
{
    if v.len() > 0 {
        lemma_lib_map_none(v.drop_last(), n);
    }
}

impl Schematic {
    /// The first placed symbol with the given reference.
    pub fn find_symbol(&self, reference: &str) -> (r: Option<&SchSymbol>)
        ensures
            match r {
                Some(s) => find_symbol_spec(self@, reference@) == Some(s@),
                None => find_symbol_spec(self@, reference@) is None,
            },
    {
        let ghost sv = symbol_views(self.symbols@);
        let ghost p = |s: SymbolView| s.reference == reference@;
        proof {
            lemma_first_index(sv, p);
        }
        let mut i: usize = 0;
        while i < self.symbols.len()
            invariant
                i <= self.symbols.len(),
                sv == symbol_views(self.symbols@),
                p == (|s: SymbolView| s.reference == reference@),
                forall|j: int| 0 <= j < i ==> !p(#[trigger] sv[j]),
            decreases self.symbols.len() - i,
        {
            if crate::text::str_eq(self.symbols[i].reference.as_str(), reference) {
                proof {
                    lemma_first_index(sv, p);
                    assert(p(sv[i as int]));
                    let f = first_index(sv, p);
                    if f < i {
                        assert(!p(sv[f]));
                    }
                }
                return Some(&self.symbols[i]);
            }
            i += 1;
        }
        proof {
            lemma_first_index(sv, p);
            let f = first_index(sv, p);
            if f < sv.len() {
                assert(!p(sv[f]));
            }
        }
        None
    }

    /// The library symbol with the given name (what `lib_symbols` maps it
    /// to: its last occurrence).
    pub fn lib_symbol(&self, name: &str) -> (r: Option<&LibSymbol>)
        ensures
            match r {
                Some(l) => self@.lib_symbols.contains_key(name@) && self@.lib_symbols[name@] == l@,
                None => !self@.lib_symbols.contains_key(name@),
            },
    {
        let ghost lv = lib_symbol_views(self.lib_symbols@);
        let mut k: usize = self.lib_symbols.len();
        while k > 0
            invariant
                k <= self.lib_symbols.len(),
                lv == lib_symbol_views(self.lib_symbols@),
                forall|j: int| k <= j < lv.len() ==> (#[trigger] lv[j]).name != name@,
            decreases k,
        {
            if crate::text::str_eq(self.lib_symbols[k - 1].name.as_str(), name) {
                proof {
                    lemma_lib_map_last(lv, k - 1);
                }
                return Some(&self.lib_symbols[k - 1]);
            }
            k -= 1;
        }
        proof {
            lemma_lib_map_none(lv, name@);
        }
        None
    }

    /// The library symbol of the first placed symbol with the given
    /// reference.
    fn symbol_lib_exec(&self, reference: &str) -> (r: Option<&LibSymbol>)
        ensures
            match r {
                Some(l) => symbol_lib(self@, reference@) == Some(l@),
                None => symbol_lib(self@, reference@) is None,
            },
    {
        let sym = self.find_symbol(reference)?;
        self.lib_symbol(sym.lib_id.as_str())
    }

    /// The first pin named `pin_name` of the symbol with the given reference.
    fn find_pin(&self, reference: &str, pin_name: &str) -> (r: Option<&LibPin>)
        ensures
            match r {
                Some(p) => find_pin_spec(self@, reference@, pin_name@) == Some(p@),
                None => find_pin_spec(self@, reference@, pin_name@) is None,
            },
    {
        let lib = self.symbol_lib_exec(reference)?;
        let ghost pv = pin_views(lib.pins@);
        let ghost pred = |p: PinView| p.name == pin_name@;
        let mut i: usize = 0;
        while i < lib.pins.len()
            invariant
                i <= lib.pins.len(),
                pv == pin_views(lib.pins@),
                symbol_lib(self@, reference@) == Some(lib@),
                pred == (|p: PinView| p.name == pin_name@),
                forall|j: int| 0 <= j < i ==> !pred(#[trigger] pv[j]),
            decreases lib.pins.len() - i,
        {
            if crate::text::str_eq(lib.pins[i].name.as_str(), pin_name) {
                proof {
                    lemma_first_index(pv, pred);
                    assert(pred(pv[i as int]));
                    let f = first_index(pv, pred);
                    if f < i {
                        assert(!pred(pv[f]));
                    }
                }
                return Some(&lib.pins[i]);
            }
            i += 1;
        }
        proof {
            lemma_first_index(pv, pred);
            let f = first_index(pv, pred);
            if f < pv.len() {
                assert(!pred(pv[f]));
            }
        }
        None
    }
}


// ────────────────────────────────────────────
// Names, references and formats
// ────────────────────────────────────────────

/// A reference that is listed: not empty, and not starting with `#` (power
/// symbols and other virtual parts).
pub open spec fn listed_reference(r: Seq<char>) -> bool {
    r.len() > 0 && r[0] != '#'
}

/// The listed references of the placed symbols.
pub open spec fn reference_set(v: SchematicView) -> Set<Seq<char>> {
    Set::new(
        |r: Seq<char>|
            listed_reference(r) && exists|i: int|
                0 <= i < v.symbols.len() && (#[trigger] v.symbols[i]).reference == r,
    )
}

/// The listed references among the first `i` symbols.
pub open spec fn refs_upto(sv: Seq<SymbolView>, i: int) -> Set<Seq<char>> {
    Set::new(
        |r: Seq<char>|
            listed_reference(r) && exists|k: int| 0 <= k < i && (#[trigger] sv[k]).reference == r,
    )
}

proof fn lemma_refs_step(sv: Seq<SymbolView>, i: int)
    requires
        0 <= i < sv.len(),
    ensures
        refs_upto(sv, i + 1) == if listed_reference(sv[i].reference) {
            refs_upto(sv, i).insert(sv[i].reference)
        } else {
            refs_upto(sv, i)
        },
{
    let r = sv[i].reference;
    let next = if listed_reference(r) { refs_upto(sv, i).insert(r) } else { refs_upto(sv, i) };
    assert forall|x: Seq<char>| refs_upto(sv, i + 1).contains(x) implies next.contains(x) by {
        let k = choose|k: int| 0 <= k < i + 1 && (#[trigger] sv[k]).reference == x;
        if k < i {
            assert(refs_upto(sv, i).contains(x));
        }
    }
    assert forall|x: Seq<char>| next.contains(x) implies refs_upto(sv, i + 1).contains(x) by {
        if refs_upto(sv, i).contains(x) {
            let k = choose|k: int| 0 <= k < i && (#[trigger] sv[k]).reference == x;
            assert(0 <= k < i + 1 && sv[k].reference == x);
        } else {
            assert(sv[i].reference == x);
        }
    }
    assert(refs_upto(sv, i + 1) =~= next);
}

/// The formats of the first `i` names.
pub open spec fn formats_upto(nv: Seq<Seq<char>>, i: int) -> Set<Seq<char>> {
    Set::new(|f: Seq<char>| exists|k: int| 0 <= k < i && #[trigger] pin_format(nv[k]) == Some(f))
}

proof fn lemma_formats_step(nv: Seq<Seq<char>>, i: int)
    requires
        0 <= i < nv.len(),
    ensures
        formats_upto(nv, i + 1) == match pin_format(nv[i]) {
            Some(f) => formats_upto(nv, i).insert(f),
            None => formats_upto(nv, i),
        },
{
    let next = match pin_format(nv[i]) {
        Some(f) => formats_upto(nv, i).insert(f),
        None => formats_upto(nv, i),
    };
    assert forall|x: Seq<char>| formats_upto(nv, i + 1).contains(x) implies next.contains(x) by {
        let k = choose|k: int| 0 <= k < i + 1 && #[trigger] pin_format(nv[k]) == Some(x);
        if k < i {
            assert(formats_upto(nv, i).contains(x));
        }
    }
    assert forall|x: Seq<char>| next.contains(x) implies formats_upto(nv, i + 1).contains(x) by {
        if formats_upto(nv, i).contains(x) {
            let k = choose|k: int| 0 <= k < i && #[trigger] pin_format(nv[k]) == Some(x);
            assert(0 <= k < i + 1 && pin_format(nv[k]) == Some(x));
        } else {
            assert(pin_format(nv[i]) == Some(x));
        }
    }
    assert(formats_upto(nv, i + 1) =~= next);
}

/// The pin name formats found among the pins of the symbol with the
/// reference `r`.
pub open spec fn format_set(v: SchematicView, r: Seq<char>) -> Set<Seq<char>> {
    Set::new(
        |f: Seq<char>|
            exists|n: Seq<char>| pin_name_set(v, r).contains(n) && #[trigger] pin_format(n) == Some(f),
    )
}

/// The pin name that a format gives for a number: each `%d` replaced by
/// the number in decimal.
pub open spec fn name_for(fmt: Seq<char>, num: int) -> Seq<char> {
    replace_all(fmt, pct_d(), dec(num))
}

impl Schematic {
    /// The references of the placed symbols, sorted, each once, without
    /// empty ones and those starting with `#`.
    pub fn references(&self) -> (r: Vec<String>)
        ensures
            string_views(r@) == sorted_list(reference_set(self@)),
            crate::order::strictly_sorted(string_views(r@)),
            string_views(r@).to_set() == reference_set(self@),
    {
        let ghost sv = symbol_views(self.symbols@);
        let mut refs: Vec<String> = Vec::new();
        let mut i: usize = 0;
        assert(string_views(refs@).to_set() =~= refs_upto(sv, 0));
        while i < self.symbols.len()
            invariant
                i <= self.symbols.len(),
                sv == symbol_views(self.symbols@),
                string_views(refs@).to_set() == refs_upto(sv, i as int),
            decreases self.symbols.len() - i,
        {
            let r = &self.symbols[i].reference;
            assert(sv[i as int].reference == r@);
            proof {
                lemma_refs_step(sv, i as int);
            }
            let cs = chars_of(r.as_str());
            if cs.len() > 0 && cs[0] != '#' {
                let ghost before = string_views(refs@);
                refs.push(r.clone());
                proof {
                    assert(string_views(refs@) =~= before.push(r@));
                    lemma_push_to_set(before, r@);
                }
            }
            i += 1;
        }
        assert(refs_upto(sv, i as int) =~= reference_set(self@));
        sorted_unique(&refs)
    }

    /// The pin names of the symbol with the given reference, sorted, each
    /// once; empty when there is no such symbol or its library symbol is
    /// missing.
    pub fn pin_names_for(&self, reference: &str) -> (r: Vec<String>)
        ensures
            string_views(r@) == sorted_list(pin_name_set(self@, reference@)),
            crate::order::strictly_sorted(string_views(r@)),
            string_views(r@).to_set() == pin_name_set(self@, reference@),
    {
        let lib = match self.symbol_lib_exec(reference) {
            Some(l) => l,
            None => {
                let r: Vec<String> = Vec::new();
                proof {
                    assert(string_views(r@).to_set() =~= Set::<Seq<char>>::empty());
                    crate::order::lemma_sorted_list_is(string_views(r@));
                }
                return r;
            },
        };
        let ghost pv = pin_views(lib.pins@);
        let mut names: Vec<String> = Vec::new();
        let mut i: usize = 0;
        while i < lib.pins.len()
            invariant
                i <= lib.pins.len(),
                pv == pin_views(lib.pins@),
                string_views(names@) == pv.take(i as int).map_values(|p: PinView| p.name),
            decreases lib.pins.len() - i,
        {
            let ghost before = string_views(names@);
            let nm = lib.pins[i].name.clone();
            assert(nm@ == pv[i as int].name);
            names.push(nm);
            assert(string_views(names@) =~= before.push(pv[i as int].name));
            assert(pv.take(i + 1).map_values(|p: PinView| p.name) =~= pv.take(i as int).map_values(
                |p: PinView| p.name,
            ).push(pv[i as int].name));
            i += 1;
        }
        assert(pv.take(i as int) =~= pv);
        assert(string_views(names@).to_set() =~= pin_name_set(self@, reference@));
        sorted_unique(&names)
    }

    /// The pin name formats (see `pin_format`) of the pins of the symbol
    /// with the given reference, sorted, each once.
    pub fn pin_prefixes_for(&self, reference: &str) -> (r: Vec<String>)
        ensures
            string_views(r@) == sorted_list(format_set(self@, reference@)),
            crate::order::strictly_sorted(string_views(r@)),
            string_views(r@).to_set() == format_set(self@, reference@),
    {
        let names = self.pin_names_for(reference);
        let ghost nv = string_views(names@);
        let mut fmts: Vec<String> = Vec::new();
        let mut i: usize = 0;
        assert(string_views(fmts@).to_set() =~= formats_upto(nv, 0));
        while i < names.len()
            invariant
                i <= names.len(),
                nv == string_views(names@),
                string_views(fmts@).to_set() == formats_upto(nv, i as int),
            decreases names.len() - i,
        {
            proof {
                lemma_formats_step(nv, i as int);
            }
            assert(nv[i as int] == names@[i as int]@);
            if let Some(f) = pin_name_to_format(names[i].as_str()) {
                let ghost before = string_views(fmts@);
                fmts.push(f);
                proof {
                    assert(string_views(fmts@) =~= before.push(f@));
                    lemma_push_to_set(before, f@);
                }
            }
            i += 1;
        }
        assert(string_views(fmts@).to_set() =~= format_set(self@, reference@)) by {
            assert forall|f: Seq<char>| string_views(fmts@).to_set().contains(f) implies format_set(
                self@,
                reference@,
            ).contains(f) by {
                let k = choose|k: int| 0 <= k < i && #[trigger] pin_format(nv[k]) == Some(f);
                assert(nv.to_set().contains(nv[k]));
            }
            assert forall|f: Seq<char>| format_set(self@, reference@).contains(f) implies string_views(
                fmts@,
            ).to_set().contains(f) by {
                let n = choose|n: Seq<char>|
                    pin_name_set(self@, reference@).contains(n) && #[trigger] pin_format(n) == Some(f);
                assert(nv.to_set().contains(n));
                let k = choose|k: int| 0 <= k < nv.len() && nv[k] == n;
                assert(pin_format(nv[k]) == Some(f));
                assert(formats_upto(nv, i as int).contains(f));
            }
        }
        sorted_unique(&fmts)
    }

    /// The pin name that `pin_fmt` gives for `start` (each `%d` replaced):
    /// ("A_{%d}", 0) -> "A_{0}".
    pub fn first_pin_name(pin_fmt: &str, start: i32) -> (r: String)
        ensures
            r@ == name_for(pin_fmt@, start as int),
    {
        let s = chars_of(pin_fmt);
        let pat: Vec<char> = vec!['%', 'd'];
        let num = dec_string(start as i64);
        let rep = chars_of(num.as_str());
        assert(pat@ =~= pct_d());
        exec_replace_all(&s, &pat, &rep)
    }
}


// ────────────────────────────────────────────
// Resolving a range of pins
// ────────────────────────────────────────────

/// What `format!("{:?}", s)` writes for a string: `s` in double quotes, with
/// quotes, backslashes and unprintable characters escaped.
pub uninterp spec fn debug_text(s: Seq<char>) -> Seq<char>;

/// `format!("{:?}", s)`.
#[verifier::external_body]
fn debug_quoted(s: &str) -> (r: String)
    ensures
        r@ == debug_text(s@),
{
    format!("{:?}", s)
}

/// The Debug texts of `s`, separated by `, `.
pub open spec fn debug_items(s: Seq<Seq<char>>) -> Seq<char>
    decreases s.len(),
{
    if s.len() == 0 {
        Seq::empty()
    } else if s.len() == 1 {
        debug_text(s[0])
    } else {
        debug_items(s.drop_last()) + ", "@ + debug_text(s.last())
    }
}

/// What `format!("{:?}", v)` writes for a vector of strings.
pub open spec fn debug_list(s: Seq<Seq<char>>) -> Seq<char> {
    "["@ + debug_items(s) + "]"@
}

/// The elements of `s` whose format is `fmt`.
pub open spec fn with_format(s: Seq<Seq<char>>, fmt: Seq<char>) -> Seq<Seq<char>>
    decreases s.len(),
{
    if s.len() == 0 {
        Seq::empty()
    } else {
        with_format(s.drop_last(), fmt) + if pin_format(s.last()) == Some(fmt) {
            seq![s.last()]
        } else {
            Seq::empty()
        }
    }
}

pub open spec fn format_error(fmt: Seq<char>) -> Seq<char> {
    "Pin format '"@ + fmt + "' must contain %d  (e.g. 'A%d' or 'A_{%d}')"@
}

pub open spec fn not_found_error(
    name: Seq<char>,
    reference: Seq<char>,
    fmt: Seq<char>,
    candidates: Seq<Seq<char>>,
) -> Seq<char> {
    "Pin '"@ + name + "' not found on '"@ + reference + "'. Format '"@ + fmt + "' matches: "@
        + debug_list(candidates)
}

/// How many numbers run from `start` to `end`, both included.
pub open spec fn span_len(start: int, end: int) -> int {
    if end >= start {
        end - start + 1
    } else {
        start - end + 1
    }
}

/// The `i`-th number from `start` towards `end`.
pub open spec fn nth_number(start: int, end: int, i: int) -> int {
    if end >= start {
        start + i
    } else {
        start - i
    }
}

/// The pin names for the numbers from `start` to `end`, in that order.
pub open spec fn names_in_range(fmt: Seq<char>, start: int, end: int) -> Seq<Seq<char>> {
    Seq::new(span_len(start, end) as nat, |i: int| name_for(fmt, nth_number(start, end, i)))
}

/// What `resolve_pin_names` gives: the names for `start..=end` when the
/// format holds `%d` and the symbol has all of them; otherwise the error for
/// the format, or for the first name missing, with the pin names of the
/// same format as candidates.
pub open spec fn resolve_spec(
    v: SchematicView,
    reference: Seq<char>,
    fmt: Seq<char>,
    start: int,
    end: int,
) -> Result<Seq<Seq<char>>, Seq<char>> {
    if !contains(fmt, pct_d()) {
        Err(format_error(fmt))
    } else {
        let all = pin_name_set(v, reference);
        let names = names_in_range(fmt, start, end);
        let k = first_index(names, |n: Seq<char>| !all.contains(n));
        if k < names.len() {
            Err(
                not_found_error(
                    names[k],
                    reference,
                    fmt,
                    with_format(sorted_list(all), fmt),
                ),
            )
        } else {
            Ok(names)
        }
    }
}

/// The numbers from `start` to `end` can be counted in `i32`.
pub open spec fn span_fits(start: int, end: int) -> bool {
    -(i32::MAX as int) < end - start < i32::MAX as int
}

/// Whether `v` holds a string equal to `x`.
fn holds(v: &Vec<String>, x: &String) -> (r: bool)
    ensures
        r == string_views(v@).contains(x@),
{
    let mut i: usize = 0;
    while i < v.len()
        invariant
            i <= v.len(),
            forall|k: int| 0 <= k < i ==> string_views(v@)[k] != x@,
        decreases v.len() - i,
    {
        if v[i] == *x {
            assert(string_views(v@)[i as int] == x@);
            return true;
        }
        i += 1;
    }
    false
}

/// `format!("{:?}", v)` for the strings of `v`.
fn debug_vec(v: &Vec<String>) -> (r: String)
    ensures
        r@ == debug_list(string_views(v@)),
{
    let ghost sv = string_views(v@);
    let mut out = String::from_str("[");
    let mut i: usize = 0;
    while i < v.len()
        invariant
            i <= v.len(),
            sv == string_views(v@),
            out@ == "["@ + debug_items(sv.take(i as int)),
        decreases v.len() - i,
    {
        let ghost before = out@;
        if i > 0 {
            out.append(", ");
        }
        let d = debug_quoted(v[i].as_str());
        out.append(d.as_str());
        proof {
            let t = sv.take(i + 1);
            assert(t.drop_last() =~= sv.take(i as int));
            assert(t.last() == v@[i as int]@);
            if i == 0 {
                assert(sv.take(0) =~= Seq::<Seq<char>>::empty());
                assert(out@ =~= "["@ + debug_items(t));
            } else {
                assert(out@ =~= "["@ + debug_items(t));
            }
        }
        i += 1;
    }
    assert(sv.take(i as int) =~= sv);
    out.append("]");
    out
}

/// The strings of `v` whose format is `fmt`.
fn keep_format(v: &Vec<String>, fmt: &str) -> (r: Vec<String>)
    ensures
        string_views(r@) == with_format(string_views(v@), fmt@),
{
    let ghost sv = string_views(v@);
    let mut out: Vec<String> = Vec::new();
    let mut i: usize = 0;
    while i < v.len()
        invariant
            i <= v.len(),
            sv == string_views(v@),
            string_views(out@) == with_format(sv.take(i as int), fmt@),
        decreases v.len() - i,
    {
        let ghost before = string_views(out@);
        let ghost t = sv.take(i + 1);
        assert(t.drop_last() =~= sv.take(i as int));
        assert(t.last() == v@[i as int]@);
        let keep = match pin_name_to_format(v[i].as_str()) {
            Some(f) => crate::text::str_eq(f.as_str(), fmt),
            None => false,
        };
        if keep {
            out.push(v[i].clone());
            assert(string_views(out@) =~= before.push(v@[i as int]@));
            assert(string_views(out@) =~= with_format(t, fmt@));
        } else {
            assert(string_views(out@) =~= with_format(t, fmt@));
        }
        i += 1;
    }
    assert(sv.take(i as int) =~= sv);
    out
}

impl Schematic {
    /// The pin names that `pin_fmt` gives for the numbers from `start` to
    /// `end` (either way round), each checked to exist on the symbol.
    ///
    ///   "A%d",    0, 3 -> ["A0","A1","A2","A3"]
    ///   "A_{%d}", 2, 0 -> ["A_{2}","A_{1}","A_{0}"]
    pub fn resolve_pin_names(
        &self,
        reference: &str,
        pin_fmt: &str,
        start: i32,
        end: i32,
    ) -> (r: Result<Vec<String>, String>)
        requires
            span_fits(start as int, end as int),
        ensures
            match r {
                Ok(names) => resolve_spec(self@, reference@, pin_fmt@, start as int, end as int)
                    == Ok::<Seq<Seq<char>>, Seq<char>>(string_views(names@)),
                Err(e) => resolve_spec(self@, reference@, pin_fmt@, start as int, end as int)
                    == Err::<Seq<Seq<char>>, Seq<char>>(e@),
            },
    {
        let fmt_chars = chars_of(pin_fmt);
        let pat: Vec<char> = vec!['%', 'd'];
        assert(pat@ =~= pct_d());
        if !exec_contains(&fmt_chars, &pat) {
            let mut e = String::from_str("Pin format '");
            e.append(pin_fmt);
            e.append("' must contain %d  (e.g. 'A%d' or 'A_{%d}')");
            return Err(e);
        }
        let all_names = self.pin_names_for(reference);
        let ghost all = pin_name_set(self@, reference@);
        let ghost names = names_in_range(pin_fmt@, start as int, end as int);
        let ghost pred = |n: Seq<char>| !all.contains(n);
        let count: i32 = if end >= start { end - start + 1 } else { start - end + 1 };
        let sign: i32 = if end >= start { 1 } else { -1 };
        let mut result: Vec<String> = Vec::new();
        let mut i: i32 = 0;
        while i < count
            invariant
                0 <= i <= count,
                count as int == span_len(start as int, end as int),
                sign == (if end >= start { 1i32 } else { -1i32 }),
                names == names_in_range(pin_fmt@, start as int, end as int),
                all == pin_name_set(self@, reference@),
                string_views(all_names@).to_set() == all,
                string_views(all_names@) == sorted_list(all),
                pred == (|n: Seq<char>| !all.contains(n)),
                contains(pin_fmt@, pct_d()),
                string_views(result@) == names.take(i as int),
                forall|j: int| 0 <= j < i ==> !pred(#[trigger] names[j]),
            decreases count - i,
        {
            let num = start + sign * i;
            assert(num as int == nth_number(start as int, end as int, i as int));
            let name = Schematic::first_pin_name(pin_fmt, num);
            assert(name@ == names[i as int]);
            if !holds(&all_names, &name) {
                proof {
                    lemma_first_index(names, pred);
                    let f = first_index(names, pred);
                    assert(pred(names[i as int]));
                    if f < i {
                        assert(!pred(names[f]));
                    }
                    assert(f == i);
                }
                let candidates = keep_format(&all_names, pin_fmt);
                let mut msg = String::from_str("Pin '");
                msg.append(name.as_str());
                msg.append("' not found on '");
                msg.append(reference);
                msg.append("'. Format '");
                msg.append(pin_fmt);
                msg.append("' matches: ");
                let d = debug_vec(&candidates);
                msg.append(d.as_str());
                return Err(msg);
            }
            let ghost before = string_views(result@);
            let ghost nv = name@;
            result.push(name);
            assert(string_views(result@) =~= before.push(nv));
            assert(names.take(i + 1) =~= names.take(i as int).push(names[i as int]));
            assert(string_views(result@) =~= names.take(i + 1));
            i += 1;
        }
        proof {
            lemma_first_index(names, pred);
            let f = first_index(names, pred);
            if f < names.len() {
                assert(!pred(names[f]));
            }
            assert(names.take(i as int) =~= names);
        }
        Ok(result)
    }
}


// ────────────────────────────────────────────
// Listing pins
// ────────────────────────────────────────────

/// The positions, in order, of the pins named `pattern`, or of all pins
/// where the pattern is `*`.
pub open spec fn pins_matching(pins: Seq<PinView>, pattern: Seq<char>) -> Seq<int>
    decreases pins.len(),
{
    if pins.len() == 0 {
        Seq::empty()
    } else {
        let before = pins_matching(pins.drop_last(), pattern);
        if pattern == seq!['*'] || pins.last().name == pattern {
            before.push(pins.len() - 1)
        } else {
            before
        }
    }
}

impl LibSymbol {
    /// The positions of the pins named `pattern`, or of all pins for `*`
    /// (the pins that the pin detail listing shows).
    pub fn matching_pins(&self, pattern: &str) -> (r: Vec<usize>)
        ensures
            r@.map_values(|i: usize| i as int) == pins_matching(self@.pins, pattern@),
    {
        let ghost pv = self@.pins;
        proof {
            reveal_strlit("*");
            assert("*"@ =~= seq!['*']);
        }
        let all = crate::text::str_eq(pattern, "*");
        let mut out: Vec<usize> = Vec::new();
        let mut i: usize = 0;
        assert(pv.take(0) =~= Seq::<PinView>::empty());
        assert(out@.map_values(|i: usize| i as int) =~= Seq::<int>::empty());
        while i < self.pins.len()
            invariant
                i <= self.pins.len(),
                pv == self@.pins,
                pv.len() == self.pins@.len(),
                all == (pattern@ == seq!['*']),
                out@.map_values(|i: usize| i as int) == pins_matching(pv.take(i as int), pattern@),
            decreases self.pins.len() - i,
        {
            assert(pv.take(i + 1).drop_last() =~= pv.take(i as int));
            assert(pv.take(i + 1).last() == pv[i as int]);
            assert(pv[i as int].name == self.pins@[i as int].name@);
            let ghost before = out@.map_values(|i: usize| i as int);
            if all || crate::text::str_eq(self.pins[i].name.as_str(), pattern) {
                out.push(i);
                assert(out@.map_values(|i: usize| i as int) =~= before.push(i as int));
            }
            i += 1;
        }
        assert(pv.take(i as int) =~= pv);
        out
    }
}


// ────────────────────────────────────────────
// From library coordinates to the sheet
// ────────────────────────────────────────────

/// `(angle as i32)` for an angle in ten-thousandths of a degree: whole
/// degrees, rounded toward zero, saturated to the range of `i32`.
pub open spec fn whole_degrees(angle: int) -> int {
    let d = if angle >= 0 { angle / 10000 } else { -((-angle) / 10000) };
    if d > i32::MAX {
        i32::MAX as int
    } else if d < i32::MIN {
        i32::MIN as int
    } else {
        d
    }
}

/// The symbol's orientation: `(angle as i32).rem_euclid(360)`.
pub open spec fn orientation(angle: int) -> int {
    whole_degrees(angle) % 360
}

/// `c * v` for `c` in {-1, 0, 1}.
pub open spec fn scale_unit(c: int, v: int) -> int {
    if c == 1 {
        v
    } else if c == -1 {
        -v
    } else {
        0
    }
}

/// KiCad's TRANSFORM matrix `(x1, y1, x2, y2)` for a symbol: by
/// orientation 0 (1, 0, 0, -1), 90 (0, -1, -1, 0), 180 (-1, 0, 0, 1), 270
/// (0, 1, 1, 0), any other as 0; mirroring about the X axis negates `y1`
/// and `y2`, about the Y axis `x1` and `x2`.
pub open spec fn transform_matrix(angle: int, mirror_x: bool, mirror_y: bool) -> (int, int, int, int) {
    let o = orientation(angle);
    let (x1, y1, x2, y2) = if o == 90 {
        (0int, -1int, -1int, 0int)
    } else if o == 180 {
        (-1int, 0int, 0int, 1int)
    } else if o == 270 {
        (0int, 1int, 1int, 0int)
    } else {
        (1int, 0int, 0int, -1int)
    };
    let y2 = if mirror_x { -y2 } else { y2 };
    let y1 = if mirror_x { -y1 } else { y1 };
    let x1 = if mirror_y { -x1 } else { x1 };
    let x2 = if mirror_y { -x2 } else { x2 };
    (x1, y1, x2, y2)
}

/// A library point `(x, y)` on the sheet, relative to the symbol's origin:
/// `(x1 x + y1 y, x2 x + y2 y)`.
pub open spec fn transform(x: int, y: int, angle: int, mirror_x: bool, mirror_y: bool) -> (int, int) {
    let (x1, y1, x2, y2) = transform_matrix(angle, mirror_x, mirror_y);
    (scale_unit(x1, x) + scale_unit(y1, y), scale_unit(x2, x) + scale_unit(y2, y))
}

/// The direction, rounded to the nearest axis, in which a wire leaves a pin
/// of the given angle (ten-thousandths of a degree): against the pin line,
/// `(-cos a, -sin a)`. The larger component is kept with its sign and the
/// other dropped. At an odd multiple of 45° both are kept, the one that
/// `f64` cosine and sine make the larger with twice the weight: the
/// horizontal one at 45° and 225°, the vertical one at 135° and 315°.
pub open spec fn wire_vector(angle: int) -> (int, int) {
    let a = angle % 3600000;
    if a < 450000 {
        (-1, 0)
    } else if a == 450000 {
        (-2, -1)
    } else if a < 1350000 {
        (0, -1)
    } else if a == 1350000 {
        (1, -2)
    } else if a < 2250000 {
        (1, 0)
    } else if a == 2250000 {
        (2, 1)
    } else if a < 3150000 {
        (0, 1)
    } else if a == 3150000 {
        (-1, 2)
    } else {
        (-1, 0)
    }
}

pub open spec fn abs(v: int) -> int {
    if v < 0 {
        -v
    } else {
        v
    }
}

/// A vector on the sheet (Y down) rounded to one of four directions, the
/// larger component deciding and the horizontal one winning a tie.
pub open spec fn direction_of(tx: int, ty: int) -> PinOutDir {
    if abs(tx) >= abs(ty) {
        if tx >= 0 {
            PinOutDir::Right
        } else {
            PinOutDir::Left
        }
    } else {
        if ty >= 0 {
            PinOutDir::Down
        } else {
            PinOutDir::Up
        }
    }
}

/// Where a pin connects on the sheet.
pub open spec fn pin_position_spec(v: SchematicView, r: Seq<char>, pin: Seq<char>) -> Option<(int, int)> {
    match (find_symbol_spec(v, r), find_pin_spec(v, r, pin)) {
        (Some(sym), Some(p)) => {
            let (tx, ty) = transform(p.rel_x, p.rel_y, sym.angle, sym.mirror_x, sym.mirror_y);
            Some((sym.x + tx, sym.y + ty))
        },
        _ => None,
    }
}

/// Which way pin `p` of symbol `sym` points on the sheet: its wire
/// direction taken through the symbol's transform.
pub open spec fn pin_direction_of(sym: SymbolView, p: PinView) -> PinOutDir {
    let (wx, wy) = wire_vector(p.angle);
    let (tx, ty) = transform(wx, wy, sym.angle, sym.mirror_x, sym.mirror_y);
    direction_of(tx, ty)
}

/// Which way a pin points on the sheet (see `pin_direction_of`).
pub open spec fn pin_direction_spec(v: SchematicView, r: Seq<char>, pin: Seq<char>) -> Option<
    PinOutDir,
> {
    match (find_symbol_spec(v, r), find_pin_spec(v, r, pin)) {
        (Some(sym), Some(p)) => Some(pin_direction_of(sym, p)),
        _ => None,
    }
}

pub open spec fn pin_view_bounded(p: PinView) -> bool {
    bounded(p.rel_x) && bounded(p.rel_y) && bounded(p.angle)
}

pub open spec fn symbol_view_bounded(s: SymbolView) -> bool {
    bounded(s.x) && bounded(s.y) && bounded(s.angle)
}

pub open spec fn view_bounded(v: SchematicView) -> bool {
    &&& forall|i: int| 0 <= i < v.symbols.len() ==> symbol_view_bounded(#[trigger] v.symbols[i])
    &&& forall|n: Seq<char>|
        #[trigger] v.lib_symbols.contains_key(n) ==> forall|j: int|
            0 <= j < v.lib_symbols[n].pins.len() ==> pin_view_bounded(
                #[trigger] v.lib_symbols[n].pins[j],
            )
}

proof fn lemma_lib_map_from(v: Seq<LibSymbolView>, n: Seq<char>)
    requires
        lib_map(v).contains_key(n),
    ensures
        exists|k: int| 0 <= k < v.len() && v[k] == lib_map(v)[n],
    decreases v.len(),
{
    if v.last().name == n {
        assert(v[v.len() - 1] == lib_map(v)[n]);
    } else {
        lemma_lib_map_from(v.drop_last(), n);
        let k = choose|k: int| 0 <= k < v.len() - 1 && v.drop_last()[k] == lib_map(v.drop_last())[n];
        assert(v[k] == lib_map(v)[n]);
    }
}

pub proof fn lemma_wf_bounded(sch: &Schematic)
    requires
        sch.wf(),
    ensures
        view_bounded(sch@),
{
    let v = sch@;
    assert forall|i: int| 0 <= i < v.symbols.len() implies symbol_view_bounded(#[trigger] v.symbols[i]) by {
        assert(v.symbols[i] == sch.symbols@[i]@);
    }
    assert forall|n: Seq<char>| #[trigger] v.lib_symbols.contains_key(n) implies forall|j: int|
        0 <= j < v.lib_symbols[n].pins.len() ==> pin_view_bounded(
            #[trigger] v.lib_symbols[n].pins[j],
        ) by {
        let lv = lib_symbol_views(sch.lib_symbols@);
        lemma_lib_map_from(lv, n);
        let k = choose|k: int| 0 <= k < lv.len() && lv[k] == lib_map(lv)[n];
        assert forall|j: int| 0 <= j < v.lib_symbols[n].pins.len() implies pin_view_bounded(
            #[trigger] v.lib_symbols[n].pins[j],
        ) by {
            assert(v.lib_symbols[n].pins[j] == sch.lib_symbols@[k].pins@[j]@);
        }
    }
}

pub proof fn lemma_found_bounded(v: SchematicView, r: Seq<char>, pin: Seq<char>)
    requires
        view_bounded(v),
    ensures
        find_symbol_spec(v, r) matches Some(s) ==> symbol_view_bounded(s),
        find_pin_spec(v, r, pin) matches Some(p) ==> pin_view_bounded(p),
{
    lemma_first_index(v.symbols, |s: SymbolView| s.reference == r);
    if let Some(l) = symbol_lib(v, r) {
        lemma_first_index(l.pins, |p: PinView| p.name == pin);
        let sym = find_symbol_spec(v, r).unwrap();
        assert(v.lib_symbols.contains_key(sym.lib_id));
    }
}

/// `(angle as i32).rem_euclid(360)`.
fn orientation_exec(angle: i64) -> (o: i64)
    requires
        bounded(angle as int),
    ensures
        o as int == orientation(angle as int),
        0 <= o < 360,
{
    let d: i64 = if angle >= 0 { angle / 10000 } else { -((-angle) / 10000) };
    let d: i64 = if d > 2147483647 {
        2147483647
    } else if d < -2147483648 {
        -2147483648
    } else {
        d
    };
    if d >= 0 {
        d % 360
    } else {
        let r = (-d) % 360;
        if r == 0 {
            0
        } else {
            360 - r
        }
    }
}

fn scale_unit_exec(c: i64, v: i64) -> (r: i64)
    requires
        -1 <= c <= 1,
        bounded(v as int),
    ensures
        r as int == scale_unit(c as int, v as int),
{
    if c == 1 {
        v
    } else if c == -1 {
        -v
    } else {
        0
    }
}

/// Takes a library point to the sheet, relative to the symbol's origin
/// (see `transform`; `properties` proves its laws: mirroring negates a
/// coordinate, a half turn negates the point, other angles act as 0).
pub fn transform_lib_to_sch(x: i64, y: i64, angle: i64, mirror_x: bool, mirror_y: bool) -> (r: (i64, i64))
    requires
        bounded(x as int),
        bounded(y as int),
        bounded(angle as int),
    ensures
        (r.0 as int, r.1 as int) == transform(x as int, y as int, angle as int, mirror_x, mirror_y),
        -2 * (NUMBER_LIMIT as int) <= r.0 <= 2 * (NUMBER_LIMIT as int),
        -2 * (NUMBER_LIMIT as int) <= r.1 <= 2 * (NUMBER_LIMIT as int),
{
    let o = orientation_exec(angle);
    let (x1, y1, x2, y2): (i64, i64, i64, i64) = if o == 90 {
        (0, -1, -1, 0)
    } else if o == 180 {
        (-1, 0, 0, 1)
    } else if o == 270 {
        (0, 1, 1, 0)
    } else {
        (1, 0, 0, -1)
    };
    let y2 = if mirror_x { -y2 } else { y2 };
    let y1 = if mirror_x { -y1 } else { y1 };
    let x1 = if mirror_y { -x1 } else { x1 };
    let x2 = if mirror_y { -x2 } else { x2 };
    let rx = scale_unit_exec(x1, x) + scale_unit_exec(y1, y);
    let ry = scale_unit_exec(x2, x) + scale_unit_exec(y2, y);
    (rx, ry)
}

fn wire_vector_exec(angle: i64) -> (r: (i64, i64))
    ensures
        (r.0 as int, r.1 as int) == wire_vector(angle as int),
        -2 <= r.0 <= 2,
        -2 <= r.1 <= 2,
{
    let a: i64 = if angle >= 0 {
        angle % 3600000
    } else {
        let r = (-(angle as i128)) % 3600000;
        if r == 0 {
            0
        } else {
            (3600000 - r) as i64
        }
    };
    if a < 450000 {
        (-1, 0)
    } else if a == 450000 {
        (-2, -1)
    } else if a < 1350000 {
        (0, -1)
    } else if a == 1350000 {
        (1, -2)
    } else if a < 2250000 {
        (1, 0)
    } else if a == 2250000 {
        (2, 1)
    } else if a < 3150000 {
        (0, 1)
    } else if a == 3150000 {
        (-1, 2)
    } else {
        (-1, 0)
    }
}

impl Schematic {
    /// Where the pin connects on the sheet (rotation and mirroring
    /// applied). KiCad's pin `at` is the connection point already.
    pub fn pin_abs_position(&self, reference: &str, pin_name: &str) -> (r: Option<Vec2>)
        requires
            self.wf(),
        ensures
            match r {
                Some(p) => pin_position_spec(self@, reference@, pin_name@) == Some(
                    (p.x as int, p.y as int),
                ) && -3 * (NUMBER_LIMIT as int) <= p.x <= 3 * (NUMBER_LIMIT as int) && -3 * (
                NUMBER_LIMIT as int) <= p.y <= 3 * (NUMBER_LIMIT as int),
                None => pin_position_spec(self@, reference@, pin_name@) is None,
            },
    {
        proof {
            lemma_wf_bounded(self);
            lemma_found_bounded(self@, reference@, pin_name@);
        }
        let sym = self.find_symbol(reference)?;
        let pin = self.find_pin(reference, pin_name)?;
        let (x, y) = transform_lib_to_sch(pin.rel_x, pin.rel_y, sym.angle, sym.mirror_x, sym.mirror_y);
        Some(Vec2 { x: sym.x + x, y: sym.y + y })
    }

    /// Which way the pin points on the sheet: its angle and the symbol's
    /// rotation and mirroring applied.
    pub fn pin_out_direction(&self, reference: &str, pin_name: &str) -> (r: Option<PinOutDir>)
        requires
            self.wf(),
        ensures
            r == pin_direction_spec(self@, reference@, pin_name@),
    {
        proof {
            lemma_wf_bounded(self);
            lemma_found_bounded(self@, reference@, pin_name@);
        }
        let sym = self.find_symbol(reference)?;
        let pin = self.find_pin(reference, pin_name)?;
        let (wx, wy) = wire_vector_exec(pin.angle);
        let (tx, ty) = transform_lib_to_sch(wx, wy, sym.angle, sym.mirror_x, sym.mirror_y);
        let ax = if tx < 0 { -tx } else { tx };
        let ay = if ty < 0 { -ty } else { ty };
        let dir = if ax >= ay {
            if tx >= 0 {
                PinOutDir::Right
            } else {
                PinOutDir::Left
            }
        } else {
            if ty >= 0 {
                PinOutDir::Down
            } else {
                PinOutDir::Up
            }
        };
        Some(dir)
    }
}

} // verus!
