//! Bus elements (bus entries, wires and net labels) for the pins of a bus
//! group, and the schematic text with them appended.

use vstd::prelude::*;
use crate::parser::{
    bounded, direction_of, lemma_first_index, lemma_found_bounded, lemma_wf_bounded,
    first_index, name_for, nth_number, pin_direction_spec, pin_position_spec, resolve_spec,
    span_fits, span_len, PinOutDir, Schematic, SchematicView, Vec2,
};
use crate::text::{
    append_chars, append_dec, append_fixed4, append_fixed4_text, chars_of, dec, fixed4, fixed4_text,
    NUMBER_LIMIT,
};
use crate::parser::last_index_of;
use crate::tui::{bus_spec_views, BusSpec, BusSpecView};

verus! {

/// The size of a bus entry, 2.54 mm, in units of 0.1 µm.
pub const BUS_ENTRY_SIZE: i64 = 25400;

/// The grid that bus entries and labels snap to, 1.27 mm.
pub const SNAP_GRID: i64 = 12700;

/// The largest wire length handled, in units of 0.1 µm (10 million km).
pub const WIRE_LIMIT: i64 = 100_000_000_000_000_000;

/// `v` rounded to the nearest multiple of the snap grid, halves away from
/// zero.
pub open spec fn snap_spec(v: int) -> int {
    if v >= 0 {
        ((v + 6350) / 12700) * 12700
    } else {
        -((((-v) + 6350) / 12700) * 12700)
    }
}

fn snap(v: i64) -> (r: i64)
    requires
        -WIRE_LIMIT * 2 <= v <= WIRE_LIMIT * 2,
    ensures
        r as int == snap_spec(v as int),
        -WIRE_LIMIT * 2 - 12700 <= r <= WIRE_LIMIT * 2 + 12700,
{
    if v >= 0 {
        ((v + 6350) / 12700) * 12700
    } else {
        -((((-v) + 6350) / 12700) * 12700)
    }
}

/// The text of `v` snapped to the grid, with four decimals. The snapped
/// value keeps the sign of `v`: a negative `v` that snaps to zero is
/// written `-0.0000`.
pub open spec fn snapped_text(v: int) -> Seq<char> {
    fixed4_text(v < 0, (if v < 0 { -snap_spec(v) } else { snap_spec(v) }) as nat)
}

/// Appends `snapped_text(v)` to `s`.
fn append_snapped(s: &mut String, v: i64)
    requires
        -WIRE_LIMIT * 2 <= v <= WIRE_LIMIT * 2,
    ensures
        final(s)@ == old(s)@ + snapped_text(v as int),
{
    let r = snap(v);
    let m: u64 = if r < 0 { (-r) as u64 } else { r as u64 };
    append_fixed4_text(s, v < 0, m);
}

// ────────────────────────────────────────────
// Layout
// ────────────────────────────────────────────

/// Where the wire, the bus entry and the label go for a pin. A label's
/// anchor must lie on a wire's end (elsewhere KiCad marks it unconnected):
/// it is put at the bus entry, with the text running back toward the pin.
#[derive(Clone, Copy, Debug)]
pub struct Layout {
    pub wire_dx: i64,
    pub wire_dy: i64,
    pub entry_sx: i64,
    pub entry_sy: i64,
    /// Degrees.
    pub label_angle: i64,
    /// The label anchor, relative to the pin's connection point.
    pub label_dx: i64,
    pub label_dy: i64,
    pub label_justify: &'static str,
}

pub struct LayoutView {
    pub wire_dx: int,
    pub wire_dy: int,
    pub entry_sx: int,
    pub entry_sy: int,
    pub label_angle: int,
    pub label_dx: int,
    pub label_dy: int,
    pub label_justify: Seq<char>,
}

impl View for Layout {
    type V = LayoutView;

    open spec fn view(&self) -> LayoutView {
        LayoutView {
            wire_dx: self.wire_dx as int,
            wire_dy: self.wire_dy as int,
            entry_sx: self.entry_sx as int,
            entry_sy: self.entry_sy as int,
            label_angle: self.label_angle as int,
            label_dx: self.label_dx as int,
            label_dy: self.label_dy as int,
            label_justify: self.label_justify@,
        }
    }
}

/// The layout for a pin pointing `dir`, with wires of length `w`.
pub open spec fn layout_spec(dir: PinOutDir, w: int) -> LayoutView {
    match dir {
        PinOutDir::Right => LayoutView {
            wire_dx: w,
            wire_dy: 0,
            entry_sx: 25400,
            entry_sy: 25400,
            label_angle: 180,
            label_dx: w,
            label_dy: 0,
            label_justify: "right bottom"@,
        },
        PinOutDir::Left => LayoutView {
            wire_dx: -w,
            wire_dy: 0,
            entry_sx: -25400,
            entry_sy: 25400,
            label_angle: 0,
            label_dx: -w,
            label_dy: 0,
            label_justify: "left bottom"@,
        },
        PinOutDir::Up => LayoutView {
            wire_dx: 0,
            wire_dy: -w,
            entry_sx: -25400,
            entry_sy: -25400,
            label_angle: 270,
            label_dx: 0,
            label_dy: -w,
            label_justify: "right bottom"@,
        },
        PinOutDir::Down => LayoutView {
            wire_dx: 0,
            wire_dy: w,
            entry_sx: -25400,
            entry_sy: 25400,
            label_angle: 90,
            label_dx: 0,
            label_dy: w,
            label_justify: "left bottom"@,
        },
    }
}

pub open spec fn opposite(dir: PinOutDir) -> PinOutDir {
    match dir {
        PinOutDir::Right => PinOutDir::Left,
        PinOutDir::Left => PinOutDir::Right,
        PinOutDir::Up => PinOutDir::Down,
        PinOutDir::Down => PinOutDir::Up,
    }
}

impl Layout {
    /// The layout for a pin pointing `pin_dir`.
    pub fn from(pin_dir: PinOutDir, wire_len: i64) -> (r: Layout)
        requires
            -WIRE_LIMIT <= wire_len <= WIRE_LIMIT,
        ensures
            r@ == layout_spec(pin_dir, wire_len as int),
    {
        match pin_dir {
            PinOutDir::Right => Layout {
                wire_dx: wire_len,
                wire_dy: 0,
                entry_sx: BUS_ENTRY_SIZE,
                entry_sy: BUS_ENTRY_SIZE,
                label_angle: 180,
                label_dx: wire_len,
                label_dy: 0,
                label_justify: "right bottom",
            },
            PinOutDir::Left => Layout {
                wire_dx: -wire_len,
                wire_dy: 0,
                entry_sx: -BUS_ENTRY_SIZE,
                entry_sy: BUS_ENTRY_SIZE,
                label_angle: 0,
                label_dx: -wire_len,
                label_dy: 0,
                label_justify: "left bottom",
            },
            PinOutDir::Up => Layout {
                wire_dx: 0,
                wire_dy: -wire_len,
                entry_sx: -BUS_ENTRY_SIZE,
                entry_sy: -BUS_ENTRY_SIZE,
                label_angle: 270,
                label_dx: 0,
                label_dy: -wire_len,
                label_justify: "right bottom",
            },
            PinOutDir::Down => Layout {
                wire_dx: 0,
                wire_dy: wire_len,
                entry_sx: -BUS_ENTRY_SIZE,
                entry_sy: BUS_ENTRY_SIZE,
                label_angle: 90,
                label_dx: 0,
                label_dy: wire_len,
                label_justify: "left bottom",
            },
        }
    }

    /// The layout for a pin pointing the other way.
    pub fn from_inverted(pin_dir: PinOutDir, wire_len: i64) -> (r: Layout)
        requires
            -WIRE_LIMIT <= wire_len <= WIRE_LIMIT,
        ensures
            r@ == layout_spec(opposite(pin_dir), wire_len as int),
    {
        let opposite = match pin_dir {
            PinOutDir::Right => PinOutDir::Left,
            PinOutDir::Left => PinOutDir::Right,
            PinOutDir::Up => PinOutDir::Down,
            PinOutDir::Down => PinOutDir::Up,
        };
        Self::from(opposite, wire_len)
    }
}

// ────────────────────────────────────────────
// The elements of one pin
// ────────────────────────────────────────────

/// The text for one pin at `(px, py)`: a bus entry and a wire from the pin
/// to it, and the net label, each with its uuid.
pub open spec fn pin_elements_text(
    px: int,
    py: int,
    net: Seq<char>,
    l: LayoutView,
    u1: Seq<char>,
    u2: Seq<char>,
    u3: Seq<char>,
) -> Seq<char> {
    let ex = snapped_text(px + l.wire_dx);
    let ey = snapped_text(py + l.wire_dy);
    let lx = snapped_text(px + l.label_dx);
    let ly = snapped_text(py + l.label_dy);
    "\n  (bus_entry (at "@ + ex + " "@ + ey + ") (size "@ + fixed4(l.entry_sx) + " "@ + fixed4(
        l.entry_sy,
    ) + ")\n    (stroke (width 0) (type default))\n    (uuid \""@ + u1 + "\")\n  )\n  (wire (pts (xy "@
        + fixed4(px) + " "@ + fixed4(py) + ") (xy "@ + ex + " "@ + ey
        + "))\n    (stroke (width 0) (type default))\n    (uuid \""@ + u2
        + "\")\n  )\n  (label \""@ + net + "\" (at "@ + lx + " "@ + ly + " "@ + dec(l.label_angle)
        + ")\n    (effects (font (size 1.27 1.27)) (justify "@ + l.label_justify
        + "))\n    (uuid \""@ + u3 + "\")\n  )"@
}

pub open spec fn layout_fits(l: LayoutView) -> bool {
    &&& -WIRE_LIMIT <= l.wire_dx <= WIRE_LIMIT
    &&& -WIRE_LIMIT <= l.wire_dy <= WIRE_LIMIT
    &&& -WIRE_LIMIT <= l.label_dx <= WIRE_LIMIT
    &&& -WIRE_LIMIT <= l.label_dy <= WIRE_LIMIT
    &&& -WIRE_LIMIT <= l.entry_sx <= WIRE_LIMIT
    &&& -WIRE_LIMIT <= l.entry_sy <= WIRE_LIMIT
}

/// The elements for one pin.
pub fn gen_pin_elements(
    pin_x: i64,
    pin_y: i64,
    net_name: &str,
    layout: &Layout,
    u1: &str,
    u2: &str,
    u3: &str,
) -> (r: String)
    requires
        -WIRE_LIMIT <= pin_x <= WIRE_LIMIT,
        -WIRE_LIMIT <= pin_y <= WIRE_LIMIT,
        layout_fits(layout@),
    ensures
        r@ == pin_elements_text(
            pin_x as int,
            pin_y as int,
            net_name@,
            layout@,
            u1@,
            u2@,
            u3@,
        ),
{
    let entry_x = pin_x + layout.wire_dx;
    let entry_y = pin_y + layout.wire_dy;
    let label_x = pin_x + layout.label_dx;
    let label_y = pin_y + layout.label_dy;
    let mut s = String::from_str("\n  (bus_entry (at ");
    append_snapped(&mut s, entry_x);
    s.append(" ");
    append_snapped(&mut s, entry_y);
    s.append(") (size ");
    append_fixed4(&mut s, layout.entry_sx);
    s.append(" ");
    append_fixed4(&mut s, layout.entry_sy);
    s.append(")\n    (stroke (width 0) (type default))\n    (uuid \"");
    s.append(u1);
    s.append("\")\n  )\n  (wire (pts (xy ");
    append_fixed4(&mut s, pin_x);
    s.append(" ");
    append_fixed4(&mut s, pin_y);
    s.append(") (xy ");
    append_snapped(&mut s, entry_x);
    s.append(" ");
    append_snapped(&mut s, entry_y);
    s.append("))\n    (stroke (width 0) (type default))\n    (uuid \"");
    s.append(u2);
    s.append("\")\n  )\n  (label \"");
    s.append(net_name);
    s.append("\" (at ");
    append_snapped(&mut s, label_x);
    s.append(" ");
    append_snapped(&mut s, label_y);
    s.append(" ");
    append_dec(&mut s, layout.label_angle);
    s.append(")\n    (effects (font (size 1.27 1.27)) (justify ");
    s.append(layout.label_justify);
    s.append("))\n    (uuid \"");
    s.append(u3);
    s.append("\")\n  )");
    s
}


// ────────────────────────────────────────────
// Planning a bus group
// ────────────────────────────────────────────

/// A pin to wire: its connection point, its net label and its layout.
#[derive(Clone, Debug)]
pub struct Placement {
    pub pos: Vec2,
    pub net_label: String,
    pub layout: Layout,
}

pub struct PlacementView {
    pub x: int,
    pub y: int,
    pub net_label: Seq<char>,
    pub layout: LayoutView,
}

impl View for Placement {
    type V = PlacementView;

    open spec fn view(&self) -> PlacementView {
        PlacementView {
            x: self.pos.x as int,
            y: self.pos.y as int,
            net_label: self.net_label@,
            layout: self.layout@,
        }
    }
}

pub open spec fn placement_views(v: Seq<Placement>) -> Seq<PlacementView> {
    v.map_values(|p: Placement| p@)
}

pub open spec fn direction_error(pin: Seq<char>, reference: Seq<char>) -> Seq<char> {
    "Cannot determine direction for pin '"@ + pin + "' on '"@ + reference + "'"@
}

pub open spec fn position_error(pin: Seq<char>, reference: Seq<char>) -> Seq<char> {
    "Cannot get position for pin '"@ + pin + "' on '"@ + reference + "'"@
}

/// The pins of one bus group: its pin names resolved, the direction of the
/// first pin deciding the layout of all, and each pin labelled with the
/// prefix and its number.
pub open spec fn bus_placements(v: SchematicView, b: BusSpecView) -> Result<
    Seq<PlacementView>,
    Seq<char>,
> {
    match resolve_spec(v, b.reference, b.pin_prefix, b.start, b.end) {
        Err(e) => Err(e),
        Ok(names) => match pin_direction_spec(v, b.reference, names[0]) {
            None => Err(direction_error(names[0], b.reference)),
            Some(d) => {
                let k = first_index(
                    names,
                    |n: Seq<char>| pin_position_spec(v, b.reference, n) is None,
                );
                if k < names.len() {
                    Err(position_error(names[k], b.reference))
                } else {
                    Ok(
                        Seq::new(
                            names.len(),
                            |i: int|
                                PlacementView {
                                    x: pin_position_spec(v, b.reference, names[i]).unwrap().0,
                                    y: pin_position_spec(v, b.reference, names[i]).unwrap().1,
                                    net_label: b.prefix + dec(nth_number(b.start, b.end, i)),
                                    layout: layout_spec(d, b.wire_len),
                                },
                        ),
                    )
                }
            },
        },
    }
}

/// The pins of all bus groups, in order; the first error stops.
pub open spec fn plan_spec(v: SchematicView, bs: Seq<BusSpecView>) -> Result<
    Seq<PlacementView>,
    Seq<char>,
>
    decreases bs.len(),
{
    if bs.len() == 0 {
        Ok(Seq::empty())
    } else {
        match plan_spec(v, bs.drop_last()) {
            Err(e) => Err(e),
            Ok(ps) => match bus_placements(v, bs.last()) {
                Err(e) => Err(e),
                Ok(q) => Ok(ps + q),
            },
        }
    }
}

pub open spec fn spec_fits(b: BusSpecView) -> bool {
    span_fits(b.start, b.end) && -WIRE_LIMIT <= b.wire_len <= WIRE_LIMIT
}

pub open spec fn placement_fits(p: PlacementView) -> bool {
    -WIRE_LIMIT <= p.x <= WIRE_LIMIT && -WIRE_LIMIT <= p.y <= WIRE_LIMIT && layout_fits(p.layout)
}

/// Whether every group can be generated without overflow
/// (`generate_and_append` requires it).
pub fn specs_fit(specs: &Vec<BusSpec>) -> (r: bool)
    ensures
        r == forall|i: int| 0 <= i < specs@.len() ==> spec_fits(#[trigger] specs@[i]@),
{
    let mut i: usize = 0;
    while i < specs.len()
        invariant
            i <= specs.len(),
            forall|k: int| 0 <= k < i ==> spec_fits(#[trigger] specs@[k]@),
        decreases specs.len() - i,
    {
        let b = &specs[i];
        let d = b.end as i64 - b.start as i64;
        if !(-2147483647 < d && d < 2147483647 && -WIRE_LIMIT <= b.wire_len && b.wire_len
            <= WIRE_LIMIT) {
            assert(!spec_fits(specs@[i as int]@));
            return false;
        }
        i += 1;
    }
    true
}

fn plan_bus(schematic: &Schematic, spec: &BusSpec) -> (r: Result<Vec<Placement>, String>)
    requires
        schematic.wf(),
        spec_fits(spec@),
    ensures
        match r {
            Ok(ps) => bus_placements(schematic@, spec@) == Ok::<Seq<PlacementView>, Seq<char>>(
                placement_views(ps@),
            ) && forall|i: int| 0 <= i < ps@.len() ==> placement_fits(#[trigger] ps@[i]@),
            Err(e) => bus_placements(schematic@, spec@) == Err::<Seq<PlacementView>, Seq<char>>(e@),
        },
{
    let ghost v = schematic@;
    let pin_names = schematic.resolve_pin_names(
        spec.reference.as_str(),
        spec.pin_prefix.as_str(),
        spec.start,
        spec.end,
    )?;
    let ghost names = crate::order::string_views(pin_names@);
    assert(names.len() == span_len(spec.start as int, spec.end as int));
    assert(names[0] == pin_names@[0]@);
    let pin_dir = match schematic.pin_out_direction(spec.reference.as_str(), pin_names[0].as_str()) {
        Some(d) => d,
        None => {
            let mut e = String::from_str("Cannot determine direction for pin '");
            e.append(pin_names[0].as_str());
            e.append("' on '");
            e.append(spec.reference.as_str());
            e.append("'");
            return Err(e);
        },
    };
    let layout = Layout::from(pin_dir, spec.wire_len);
    let sign: i32 = if spec.end >= spec.start { 1 } else { -1 };
    let ghost pred = |n: Seq<char>| pin_position_spec(v, spec.reference@, n) is None;
    let mut out: Vec<Placement> = Vec::new();
    let mut i: usize = 0;
    while i < pin_names.len()
        invariant
            i <= pin_names.len(),
            v == schematic@,
            schematic.wf(),
            spec_fits(spec@),
            names == crate::order::string_views(pin_names@),
            names.len() == span_len(spec.start as int, spec.end as int),
            resolve_spec(v, spec.reference@, spec.pin_prefix@, spec.start as int, spec.end as int)
                == Ok::<Seq<Seq<char>>, Seq<char>>(names),
            pin_direction_spec(v, spec.reference@, names[0]) == Some(pin_dir),
            sign == (if spec.end >= spec.start { 1i32 } else { -1i32 }),
            layout@ == layout_spec(pin_dir, spec.wire_len as int),
            pred == (|n: Seq<char>| pin_position_spec(v, spec.reference@, n) is None),
            forall|j: int| 0 <= j < i ==> !pred(#[trigger] names[j]),
            forall|j: int|
                0 <= j < i ==> (#[trigger] out@[j])@ == (PlacementView {
                    x: pin_position_spec(v, spec.reference@, names[j]).unwrap().0,
                    y: pin_position_spec(v, spec.reference@, names[j]).unwrap().1,
                    net_label: spec.prefix@ + dec(nth_number(spec.start as int, spec.end as int, j)),
                    layout: layout_spec(pin_dir, spec.wire_len as int),
                }),
            forall|j: int| 0 <= j < i ==> placement_fits(#[trigger] out@[j]@),
            out@.len() == i,
        decreases pin_names.len() - i,
    {
        let num = spec.start + sign * (i as i32);
        assert(num as int == nth_number(spec.start as int, spec.end as int, i as int));
        let mut net_label = spec.prefix.clone();
        append_dec(&mut net_label, num as i64);
        let pos = match schematic.pin_abs_position(spec.reference.as_str(), pin_names[i].as_str()) {
            Some(p) => p,
            None => {
                assert(names[i as int] == pin_names@[i as int]@);
                proof {
                    lemma_first_index(names, pred);
                    let f = first_index(names, pred);
                    assert(pred(names[i as int]));
                    if f < i {
                        assert(!pred(names[f]));
                    }
                }
                let mut e = String::from_str("Cannot get position for pin '");
                e.append(pin_names[i].as_str());
                e.append("' on '");
                e.append(spec.reference.as_str());
                e.append("'");
                return Err(e);
            },
        };
        assert(names[i as int] == pin_names@[i as int]@);
        out.push(Placement { pos, net_label, layout });
        i += 1;
    }
    proof {
        lemma_first_index(names, pred);
        let f = first_index(names, pred);
        if f < names.len() {
            assert(!pred(names[f]));
        }
        if let Ok(expect) = bus_placements(v, spec@) {
            assert(placement_views(out@) =~= expect);
        }
    }
    Ok(out)
}

/// Once a prefix of the groups fails, the whole plan fails the same way.
proof fn lemma_plan_error_stays(v: SchematicView, bs: Seq<BusSpecView>, k: int)
    requires
        0 <= k <= bs.len(),
        plan_spec(v, bs.take(k)) is Err,
    ensures
        plan_spec(v, bs) == plan_spec(v, bs.take(k)),
    decreases bs.len() - k,
{
    if k < bs.len() {
        assert(bs.take(k + 1).drop_last() =~= bs.take(k));
        lemma_plan_error_stays(v, bs, k + 1);
    } else {
        assert(bs.take(k) =~= bs);
    }
}

/// The pins of all bus groups.
pub fn plan(schematic: &Schematic, specs: &Vec<BusSpec>) -> (r: Result<Vec<Placement>, String>)
    requires
        schematic.wf(),
        forall|i: int| 0 <= i < specs@.len() ==> spec_fits(#[trigger] specs@[i]@),
    ensures
        match r {
            Ok(ps) => plan_spec(schematic@, bus_spec_views(specs@)) == Ok::<
                Seq<PlacementView>,
                Seq<char>,
            >(placement_views(ps@)) && forall|i: int|
                0 <= i < ps@.len() ==> placement_fits(#[trigger] ps@[i]@),
            Err(e) => plan_spec(schematic@, bus_spec_views(specs@)) == Err::<
                Seq<PlacementView>,
                Seq<char>,
            >(e@),
        },
{
    let ghost bv = bus_spec_views(specs@);
    let mut out: Vec<Placement> = Vec::new();
    let mut i: usize = 0;
    assert(bv.take(0) =~= Seq::<BusSpecView>::empty());
    assert(placement_views(out@) =~= Seq::<PlacementView>::empty());
    while i < specs.len()
        invariant
            i <= specs.len(),
            bv == bus_spec_views(specs@),
            schematic.wf(),
            forall|k: int| 0 <= k < specs@.len() ==> spec_fits(#[trigger] specs@[k]@),
            plan_spec(schematic@, bv.take(i as int)) == Ok::<Seq<PlacementView>, Seq<char>>(
                placement_views(out@),
            ),
            forall|k: int| 0 <= k < out@.len() ==> placement_fits(#[trigger] out@[k]@),
        decreases specs.len() - i,
    {
        proof {
            assert(bv.take(i + 1).drop_last() =~= bv.take(i as int));
            assert(bv.take(i + 1).last() == specs@[i as int]@);
        }
        let mut q = match plan_bus(schematic, &specs[i]) {
            Ok(q) => q,
            Err(e) => {
                proof {
                    lemma_plan_error_stays(schematic@, bv, i + 1);
                }
                return Err(e);
            },
        };
        let ghost before = placement_views(out@);
        let ghost q_old = q@;
        let ghost old_out = out@;
        out.append(&mut q);
        proof {
            assert(placement_views(out@) =~= before + placement_views(q_old));
            assert forall|k: int| 0 <= k < out@.len() implies placement_fits(#[trigger] out@[k]@) by {
                if k >= old_out.len() {
                    assert(out@[k] == q_old[k - old_out.len()]);
                } else {
                    assert(out@[k] == old_out[k]);
                }
            }
        }
        i += 1;
    }
    assert(bv.take(i as int) =~= bv);
    Ok(out)
}


// ────────────────────────────────────────────
// Writing the elements
// ────────────────────────────────────────────

pub open spec fn is_lower_hex(c: char) -> bool {
    ('0' <= c && c <= '9') || ('a' <= c && c <= 'f')
}

/// The text of a random (version 4) UUID: 36 characters, lowercase hex
/// digits in groups of 8-4-4-4-12 separated by `-`, the version digit `4`
/// and a variant digit of `8`, `9`, `a` or `b`.
pub open spec fn uuid_text(u: Seq<char>) -> bool {
    &&& u.len() == 36
    &&& forall|i: int|
        0 <= i < 36 ==> if i == 8 || i == 13 || i == 18 || i == 23 {
            u[i] == '-'
        } else {
            is_lower_hex(#[trigger] u[i])
        }
    &&& u[14] == '4'
    &&& (u[19] == '8' || u[19] == '9' || u[19] == 'a' || u[19] == 'b')
}

/// `Uuid::new_v4().to_string()`: a random UUID in its hyphenated lowercase
/// form. The contract states the form of the text (see `uuid_text`), not
/// its random value.
#[verifier::external_body]
fn new_uuid() -> (r: String)
    ensures
        uuid_text(r@),
{
    uuid::Uuid::new_v4().to_string()
}

/// The elements for the placements `ps`, pin `i` taking the uuids
/// `us[3i]`, `us[3i + 1]` and `us[3i + 2]`.
pub open spec fn render(ps: Seq<PlacementView>, us: Seq<Seq<char>>) -> Seq<char>
    decreases ps.len(),
{
    if ps.len() == 0 {
        Seq::empty()
    } else {
        let n = ps.len() - 1;
        render(ps.drop_last(), us) + pin_elements_text(
            ps[n].x,
            ps[n].y,
            ps[n].net_label,
            ps[n].layout,
            us[3 * n],
            us[3 * n + 1],
            us[3 * n + 2],
        )
    }
}

proof fn lemma_render_prefix(ps: Seq<PlacementView>, us: Seq<Seq<char>>, us2: Seq<Seq<char>>)
    requires
        us.len() <= us2.len(),
        3 * ps.len() <= us.len(),
        us == us2.take(us.len() as int),
    ensures
        render(ps, us) == render(ps, us2),
    decreases ps.len(),
{
    if ps.len() > 0 {
        lemma_render_prefix(ps.drop_last(), us, us2);
        let n = ps.len() - 1;
        assert(us[3 * n] == us2[3 * n]);
        assert(us[3 * n + 1] == us2[3 * n + 1]);
        assert(us[3 * n + 2] == us2[3 * n + 2]);
    }
}

pub open spec fn closing_error() -> Seq<char> {
    "Invalid .kicad_sch: no closing ')'"@
}

/// The schematic text with the elements inserted before its last `)`.
pub open spec fn appended_text(src: Seq<char>, elements: Seq<char>) -> Seq<char> {
    src.take(last_index_of(src, ')')) + elements + "\n)"@
}

/// Generates the bus elements of `specs` and returns the schematic text
/// with them appended (before the closing `)` of `src`), and the number of
/// bus groups. Each element gets a fresh random uuid.
pub fn generate_and_append(src: &str, schematic: &Schematic, specs: &Vec<BusSpec>) -> (r: Result<
    (String, usize),
    String,
>)
    requires
        schematic.wf(),
        forall|i: int| 0 <= i < specs@.len() ==> spec_fits(#[trigger] specs@[i]@),
    ensures
        match plan_spec(schematic@, bus_spec_views(specs@)) {
            Err(e) => r matches Err(x) && x@ == e,
            Ok(ps) => if last_index_of(src@, ')') < 0 {
                r matches Err(x) && x@ == closing_error()
            } else {
                r matches Ok((text, count)) && count == specs@.len() && exists|us: Seq<Seq<char>>|
                    us.len() == 3 * ps.len() && (forall|j: int|
                        0 <= j < us.len() ==> uuid_text(#[trigger] us[j])) && text@ == appended_text(
                        src@,
                        render(ps, us),
                    )
            },
        },
{
    let placements = plan(schematic, specs)?;
    let ghost ps = placement_views(placements@);
    let mut generated = String::new();
    let ghost mut us: Seq<Seq<char>> = Seq::empty();
    let mut i: usize = 0;
    while i < placements.len()
        invariant
            i <= placements.len(),
            ps == placement_views(placements@),
            forall|k: int| 0 <= k < placements@.len() ==> placement_fits(#[trigger] placements@[k]@),
            us.len() == 3 * i,
            forall|j: int| 0 <= j < us.len() ==> uuid_text(#[trigger] us[j]),
            generated@ == render(ps.take(i as int), us),
        decreases placements.len() - i,
    {
        let p = &placements[i];
        assert(placement_fits(p@));
        let u1 = new_uuid();
        let u2 = new_uuid();
        let u3 = new_uuid();
        let ghost old_us = us;
        proof {
            us = us.push(u1@).push(u2@).push(u3@);
            assert(old_us =~= us.take(old_us.len() as int));
            lemma_render_prefix(ps.take(i as int), old_us, us);
            assert(ps.take(i + 1).drop_last() =~= ps.take(i as int));
        }
        let e = gen_pin_elements(
            p.pos.x,
            p.pos.y,
            p.net_label.as_str(),
            &p.layout,
            u1.as_str(),
            u2.as_str(),
            u3.as_str(),
        );
        generated.append(e.as_str());
        i += 1;
    }
    assert(ps.take(i as int) =~= ps);
    let chars = chars_of(src);
    let mut k: usize = chars.len();
    while k > 0 && chars[k - 1] != ')'
        invariant
            k <= chars.len(),
            forall|j: int| k <= j < chars@.len() ==> chars@[j] != ')',
        decreases k,
    {
        k -= 1;
    }
    proof {
        crate::parser::lemma_last_index_of(src@, ')');
        let li = last_index_of(src@, ')');
        if k > 0 && li > k - 1 {
            assert(chars@[li] == ')');
        }
        if k > 0 && li < k - 1 {
            assert(chars@[k - 1] == ')');
        }
        if k == 0 && li >= 0 {
            assert(chars@[li] == ')');
        }
    }
    if k == 0 {
        return Err(String::from_str("Invalid .kicad_sch: no closing ')'"));
    }
    let mut text = String::new();
    append_chars(&mut text, &chars, 0, k - 1);
    text.append(generated.as_str());
    text.append("\n)");
    assert(chars@.subrange(0, k - 1) =~= src@.take(k - 1));
    Ok((text, specs.len()))
}

} // verus!
