//! The bus table that the user edits: its rows, the cursor, editing, and
//! the validation of the rows before generating. The terminal front end draws it and reads the keys.

use vstd::prelude::*;
use crate::generator::WIRE_LIMIT;
use crate::order::{string_views, sorted_list};
use crate::parser::{
    format_set, name_for, pct_d, pin_direction_spec, reference_set, resolve_spec, span_fits,
    PinOutDir, Schematic, SchematicView,
};
use crate::session::SavedRow;
use crate::text::{
    contains, exec_contains, append_dec, append_fixed4_text, chars_of, dec, fixed4_text, float_scaled, parse_scaled, parse_i32,
    parse_i32_spec,
};

verus! {

/// One bus group to generate.
#[derive(Clone, Debug)]
pub struct BusSpec {
    pub reference: String,
    /// The pin name format, e.g. `A_{%d}`.
    pub pin_prefix: String,
    /// The net label prefix, e.g. `A`.
    pub prefix: String,
    pub start: i32,
    pub end: i32,
    /// The wire length, in units of 0.1 µm.
    pub wire_len: i64,
}

pub struct BusSpecView {
    pub reference: Seq<char>,
    pub pin_prefix: Seq<char>,
    pub prefix: Seq<char>,
    pub start: int,
    pub end: int,
    pub wire_len: int,
}

impl View for BusSpec {
    type V = BusSpecView;

    open spec fn view(&self) -> BusSpecView {
        BusSpecView {
            reference: self.reference@,
            pin_prefix: self.pin_prefix@,
            prefix: self.prefix@,
            start: self.start as int,
            end: self.end as int,
            wire_len: self.wire_len as int,
        }
    }
}

pub open spec fn bus_spec_views(v: Seq<BusSpec>) -> Seq<BusSpecView> {
    v.map_values(|b: BusSpec| b@)
}


// ────────────────────────────────────────────
// Rows of the table
// ────────────────────────────────────────────

/// The number of columns: Ref, Pin Prefix, Prefix, Start, End, Wire(inch).
pub const COLUMNS: usize = 6;

/// A row as typed: every cell is text.
#[derive(Clone, Debug)]
pub struct RowData {
    pub reference: String,
    pub pin_prefix: String,
    pub prefix: String,
    pub start: String,
    pub end: String,
    /// Inches.
    pub wire_len: String,
}

pub struct RowView {
    pub reference: Seq<char>,
    pub pin_prefix: Seq<char>,
    pub prefix: Seq<char>,
    pub start: Seq<char>,
    pub end: Seq<char>,
    pub wire_len: Seq<char>,
}

impl View for RowData {
    type V = RowView;

    open spec fn view(&self) -> RowView {
        RowView {
            reference: self.reference@,
            pin_prefix: self.pin_prefix@,
            prefix: self.prefix@,
            start: self.start@,
            end: self.end@,
            wire_len: self.wire_len@,
        }
    }
}

pub open spec fn row_views(v: Seq<RowData>) -> Seq<RowView> {
    v.map_values(|r: RowData| r@)
}

/// A new row: empty names, numbers 0 to 15, wires of 0.2 in.
pub open spec fn default_row() -> RowView {
    RowView {
        reference: Seq::empty(),
        pin_prefix: Seq::empty(),
        prefix: Seq::empty(),
        start: "0"@,
        end: "15"@,
        wire_len: "0.2"@,
    }
}

impl Default for RowData {
    fn default() -> (r: Self)
        ensures
            r@ == default_row(),
    {
        RowData {
            reference: String::new(),
            pin_prefix: String::new(),
            prefix: String::new(),
            start: String::from_str("0"),
            end: String::from_str("15"),
            wire_len: String::from_str("0.2"),
        }
    }
}

/// A length in units of 0.1 µm as ten-thousandths of an inch, rounded to
/// the nearest.
pub open spec fn units_to_inch4(u: int) -> int {
    if u >= 0 {
        (u * 10 + 127) / 254
    } else {
        -(((-u) * 10 + 127) / 254)
    }
}

/// A length in ten-thousandths of an inch as units of 0.1 µm, rounded to
/// the nearest.
pub open spec fn inch4_to_units(w: int) -> int {
    if w >= 0 {
        (w * 254 + 5) / 10
    } else {
        -(((-w) * 254 + 5) / 10)
    }
}

/// The largest wire length read from a row, in units of 10⁻⁸ inch (about
/// 7.6 million km).
pub const INCH_LIMIT: u128 = 30_000_000_000_000_000_000;

/// A length in units of 10⁻⁸ inch as units of 0.1 µm (2.54 units per
/// 10⁻⁵ inch), rounded to the nearest.
pub open spec fn inch8_to_units(x: int) -> int {
    if x >= 0 {
        (x * 254 + 50000) / 100000
    } else {
        -(((-x) * 254 + 50000) / 100000)
    }
}

/// The row shown for a saved row: the numbers as decimal text and the wire
/// length in inches with four decimals (a negative length keeps its sign,
/// even where it rounds to zero).
pub open spec fn row_from_saved(s: SavedRow) -> RowView {
    RowView {
        reference: s.reference@,
        pin_prefix: s.pin_prefix@,
        prefix: s.prefix@,
        start: dec(s.start as int),
        end: dec(s.end as int),
        wire_len: fixed4_text(
            s.wire_len < 0,
            (if s.wire_len < 0 {
                -units_to_inch4(s.wire_len as int)
            } else {
                units_to_inch4(s.wire_len as int)
            }) as nat,
        ),
    }
}

/// The bus group a row describes, when its numbers read: start and end as
/// `i32`, the wire length as an `f64` number of inches (read to 10⁻⁸ inch,
/// at most `INCH_LIMIT`) converted to units of 0.1 µm.
pub open spec fn row_bus_spec(r: RowView) -> Option<BusSpecView> {
    match (
        float_scaled(r.wire_len, 8, INCH_LIMIT as nat),
        parse_i32_spec(r.start),
        parse_i32_spec(r.end),
    ) {
        (Some(w), Some(s), Some(e)) => Some(
            BusSpecView {
                reference: r.reference,
                pin_prefix: r.pin_prefix,
                prefix: r.prefix,
                start: s as int,
                end: e as int,
                wire_len: inch8_to_units(w),
            },
        ),
        _ => None,
    }
}

/// The text of a column: Ref, Pin Prefix, Prefix, Start, End, Wire(inch);
/// empty past the last.
pub open spec fn column_text(r: RowView, col: int) -> Seq<char> {
    if col == 0 {
        r.reference
    } else if col == 1 {
        r.pin_prefix
    } else if col == 2 {
        r.prefix
    } else if col == 3 {
        r.start
    } else if col == 4 {
        r.end
    } else if col == 5 {
        r.wire_len
    } else {
        Seq::empty()
    }
}

/// The row with column `col` set to `val` (unchanged past the last).
pub open spec fn with_column(r: RowView, col: int, val: Seq<char>) -> RowView {
    if col == 0 {
        RowView { reference: val, ..r }
    } else if col == 1 {
        RowView { pin_prefix: val, ..r }
    } else if col == 2 {
        RowView { prefix: val, ..r }
    } else if col == 3 {
        RowView { start: val, ..r }
    } else if col == 4 {
        RowView { end: val, ..r }
    } else if col == 5 {
        RowView { wire_len: val, ..r }
    } else {
        r
    }
}

impl RowData {
    pub fn from_saved(s: &SavedRow) -> (r: RowData)
        ensures
            r@ == row_from_saved(*s),
    {
        let u = s.wire_len as i128;
        let inch4: i128 = if u >= 0 {
            (u * 10 + 127) / 254
        } else {
            -(((-u) * 10 + 127) / 254)
        };
        let m: u64 = if inch4 < 0 { (-inch4) as u64 } else { inch4 as u64 };
        let mut wire = String::new();
        append_fixed4_text(&mut wire, u < 0, m);
        let mut start = String::new();
        append_dec(&mut start, s.start as i64);
        let mut end = String::new();
        append_dec(&mut end, s.end as i64);
        RowData {
            reference: s.reference.clone(),
            pin_prefix: s.pin_prefix.clone(),
            prefix: s.prefix.clone(),
            start,
            end,
            wire_len: wire,
        }
    }

    /// The bus group of the row (see `row_bus_spec`). A Wire that reads as
    /// `inf`, `nan` or a length past `INCH_LIMIT` cannot be held in the
    /// fixed-point length, so such a row gives none; validation reports it.
    pub fn to_bus_spec(&self) -> (r: Option<BusSpec>)
        ensures
            match r {
                Some(b) => row_bus_spec(self@) == Some(b@) && -WIRE_LIMIT <= b.wire_len
                    <= WIRE_LIMIT,
                None => row_bus_spec(self@) is None,
            },
    {
        let w = parse_scaled(self.wire_len.as_str(), 8, INCH_LIMIT)?;
        let start = parse_i32(self.start.as_str())?;
        let end = parse_i32(self.end.as_str())?;
        let wire_len: i64 = if w >= 0 {
            ((w * 254 + 50000) / 100000) as i64
        } else {
            (-(((-w) * 254 + 50000) / 100000)) as i64
        };
        Some(
            BusSpec {
                reference: self.reference.clone(),
                pin_prefix: self.pin_prefix.clone(),
                prefix: self.prefix.clone(),
                start,
                end,
                wire_len,
            },
        )
    }

    pub fn get_col(&self, col: usize) -> (r: &str)
        ensures
            r@ == column_text(self@, col as int),
    {
        if col == 0 {
            self.reference.as_str()
        } else if col == 1 {
            self.pin_prefix.as_str()
        } else if col == 2 {
            self.prefix.as_str()
        } else if col == 3 {
            self.start.as_str()
        } else if col == 4 {
            self.end.as_str()
        } else if col == 5 {
            self.wire_len.as_str()
        } else {
            proof {
                reveal_strlit("");
            }
            ""
        }
    }

    pub fn set_col(&mut self, col: usize, val: String)
        ensures
            final(self)@ == with_column(old(self)@, col as int, val@),
    {
        if col == 0 {
            self.reference = val;
        } else if col == 1 {
            self.pin_prefix = val;
        } else if col == 2 {
            self.prefix = val;
        } else if col == 3 {
            self.start = val;
        } else if col == 4 {
            self.end = val;
        } else if col == 5 {
            self.wire_len = val;
        }
    }
}


// ────────────────────────────────────────────
// The state of the editor
// ────────────────────────────────────────────

pub struct App {
    pub rows: Vec<RowData>,
    pub sel_row: usize,
    pub sel_col: usize,
    pub editing: bool,
    pub edit_buf: String,
    pub status: String,
    pub generate: bool,
}

pub struct AppView {
    pub rows: Seq<RowView>,
    pub sel_row: int,
    pub sel_col: int,
    pub editing: bool,
    pub edit_buf: Seq<char>,
    pub status: Seq<char>,
    pub generate: bool,
}

impl View for App {
    type V = AppView;

    open spec fn view(&self) -> AppView {
        AppView {
            rows: row_views(self.rows@),
            sel_row: self.sel_row as int,
            sel_col: self.sel_col as int,
            editing: self.editing,
            edit_buf: self.edit_buf@,
            status: self.status@,
            generate: self.generate,
        }
    }
}

/// There is a row, and the cursor is on a cell.
pub open spec fn app_wf(a: AppView) -> bool {
    a.rows.len() >= 1 && 0 <= a.sel_row < a.rows.len() && 0 <= a.sel_col < COLUMNS
}

pub open spec fn help_text() -> Seq<char> {
    "Pin Prefix format: A%d  A_%d  A_{%d} | ←→:列移動 ↑↓:行移動 Tab:次列 a:追加 d:削除 g:生成 q:終了"@
}

pub open spec fn missing_pct_text() -> Seq<char> {
    "Pin Prefix must contain %d  e.g.: A%d  A_%d  A_{%d} | Tab:次列 a:追加 d:削除 g:生成 q:終了"@
}

/// What `format!("{:?}", d)` writes for a direction.
pub open spec fn dir_name(d: PinOutDir) -> Seq<char> {
    match d {
        PinOutDir::Right => "Right"@,
        PinOutDir::Left => "Left"@,
        PinOutDir::Up => "Up"@,
        PinOutDir::Down => "Down"@,
    }
}

/// An `i32` cell read as a number, 0 when it does not read.
pub open spec fn number_or_zero_i32(t: Seq<char>) -> int {
    match parse_i32_spec(t) {
        Some(v) => v as int,
        None => 0,
    }
}

/// The status line for a row: help while its names are missing, a hint
/// when the format lacks `%d`, else the direction of its first pin, or a
/// warning when there is no such pin.
pub open spec fn status_for(r: RowView, v: SchematicView) -> Seq<char> {
    if r.reference.len() == 0 || r.pin_prefix.len() == 0 {
        help_text()
    } else if !contains(r.pin_prefix, pct_d()) {
        missing_pct_text()
    } else {
        let first = name_for(r.pin_prefix, number_or_zero_i32(r.start));
        match pin_direction_spec(v, r.reference, first) {
            Some(d) => "Pin direction: "@ + dir_name(d) + "  (自動判定)  例: "@ + r.pin_prefix
                + " => "@ + first + " | Tab:次列 a:追加 d:削除 g:生成 q:終了"@,
            None => "Warning: pin '"@ + first + "' not found on '"@ + r.reference
                + "'  format例: A%d  A_%d  A_{%d} | Tab:次列 a:追加 d:削除 g:生成 q:終了"@,
        }
    }
}

pub open spec fn row_prefix(n: int) -> Seq<char> {
    "Row "@ + dec(n)
}

pub open spec fn error_if(cond: bool, e: Seq<char>) -> Seq<Seq<char>> {
    if cond {
        seq![e]
    } else {
        Seq::empty()
    }
}

/// The problems of a row's cells, each message starting with `p`: empty
/// Ref, Pin Prefix, Prefix; Start, End that do not read as `i32`; a Wire
/// that does not read as a length the bus group can hold (see
/// `row_bus_spec`).
pub open spec fn cell_errors(p: Seq<char>, r: RowView) -> Seq<Seq<char>> {
    error_if(r.reference.len() == 0, p + ": Ref empty"@) + error_if(
        r.pin_prefix.len() == 0,
        p + ": Pin Prefix empty"@,
    ) + error_if(r.prefix.len() == 0, p + ": Prefix empty"@) + error_if(
        parse_i32_spec(r.start) is None,
        p + ": Start invalid"@,
    ) + error_if(parse_i32_spec(r.end) is None, p + ": End invalid"@) + error_if(
        float_scaled(r.wire_len, 8, INCH_LIMIT as nat) is None,
        p + ": Wire len invalid"@,
    )
}

/// The problem of a row's pin format: no `%d` in it, or the error of
/// resolving its pins (Start and End read as 0 where they do not read).
pub open spec fn format_errors(p: Seq<char>, r: RowView, v: SchematicView) -> Seq<Seq<char>> {
    if r.pin_prefix.len() > 0 {
        if !contains(r.pin_prefix, pct_d()) {
            seq![p + ": Pin Prefix must contain %d"@]
        } else {
            match resolve_spec(
                v,
                r.reference,
                r.pin_prefix,
                number_or_zero_i32(r.start),
                number_or_zero_i32(r.end),
            ) {
                Err(e) => seq![p + ": "@ + e],
                Ok(_) => Seq::empty(),
            }
        }
    } else {
        Seq::empty()
    }
}

/// The problems of row number `n` (counted from 1).
pub open spec fn row_errors(n: int, r: RowView, v: SchematicView) -> Seq<Seq<char>> {
    cell_errors(row_prefix(n), r) + format_errors(row_prefix(n), r, v)
}

/// The problems of all rows, in order.
pub open spec fn errors_of(rows: Seq<RowView>, v: SchematicView) -> Seq<Seq<char>>
    decreases rows.len(),
{
    if rows.len() == 0 {
        Seq::empty()
    } else {
        errors_of(rows.drop_last(), v) + row_errors(rows.len() as int, rows.last(), v)
    }
}

/// Resolving the row's pins counts within `i32`.
pub open spec fn row_fits(r: RowView) -> bool {
    (r.pin_prefix.len() > 0 && contains(r.pin_prefix, pct_d())) ==> span_fits(
        number_or_zero_i32(r.start),
        number_or_zero_i32(r.end),
    )
}

pub open spec fn rows_fit(rows: Seq<RowView>) -> bool {
    forall|i: int| 0 <= i < rows.len() ==> row_fits(#[trigger] rows[i])
}

/// `s` joined by ` | `.
pub open spec fn join_bar(s: Seq<Seq<char>>) -> Seq<char>
    decreases s.len(),
{
    if s.len() == 0 {
        Seq::empty()
    } else if s.len() == 1 {
        s[0]
    } else {
        join_bar(s.drop_last()) + " | "@ + s.last()
    }
}

/// The suggestions for the cell under the cursor: the references in the
/// Ref column, the pin formats of the row's symbol in the Pin Prefix
/// column.
pub open spec fn suggestions_for(a: AppView, v: SchematicView) -> Seq<Seq<char>> {
    if a.sel_col == 0 {
        sorted_list(reference_set(v))
    } else if a.sel_col == 1 {
        sorted_list(format_set(v, a.rows[a.sel_row].reference))
    } else {
        Seq::empty()
    }
}

impl App {
    pub fn help_status() -> (r: String)
        ensures
            r@ == help_text(),
    {
        String::from_str(
            "Pin Prefix format: A%d  A_%d  A_{%d} | ←→:列移動 ↑↓:行移動 Tab:次列 a:追加 d:削除 g:生成 q:終了",
        )
    }

    /// The editor for a schematic, with the saved rows (one new row when
    /// none were saved).
    pub fn new(saved: Vec<SavedRow>) -> (r: App)
        ensures
            app_wf(r@),
            r@.rows == if saved@.len() == 0 {
                seq![default_row()]
            } else {
                saved@.map_values(|s: SavedRow| row_from_saved(s))
            },
            r@.sel_row == 0,
            r@.sel_col == 0,
            !r@.editing,
            r@.edit_buf == Seq::<char>::empty(),
            r@.status == help_text(),
            !r@.generate,
    {
        let mut rows: Vec<RowData> = Vec::new();
        if saved.len() == 0 {
            rows.push(RowData::default());
            assert(row_views(rows@) =~= seq![default_row()]);
        } else {
            let mut i: usize = 0;
            while i < saved.len()
                invariant
                    i <= saved.len(),
                    row_views(rows@) == saved@.take(i as int).map_values(
                        |s: SavedRow| row_from_saved(s),
                    ),
                decreases saved.len() - i,
            {
                let r = RowData::from_saved(&saved[i]);
                let ghost before = row_views(rows@);
                rows.push(r);
                assert(row_views(rows@) =~= before.push(row_from_saved(saved@[i as int])));
                assert(saved@.take(i + 1).map_values(|s: SavedRow| row_from_saved(s))
                    =~= saved@.take(i as int).map_values(|s: SavedRow| row_from_saved(s)).push(
                    row_from_saved(saved@[i as int]),
                ));
                i += 1;
            }
            assert(saved@.take(i as int) =~= saved@);
        }
        App {
            rows,
            sel_row: 0,
            sel_col: 0,
            editing: false,
            edit_buf: String::new(),
            status: Self::help_status(),
            generate: false,
        }
    }

    pub fn next_col(&mut self)
        ensures
            final(self)@ == (AppView { sel_col: (old(self)@.sel_col + 1) % (COLUMNS as int), ..old(self)@ }),
    {
        self.sel_col = (self.sel_col % COLUMNS + 1) % COLUMNS;
        assert((old(self).sel_col % 6 + 1) % 6 == (old(self).sel_col + 1) % 6);
    }

    pub fn prev_col(&mut self)
        ensures
            final(self)@ == (AppView {
                sel_col: if old(self)@.sel_col == 0 { COLUMNS - 1 } else { old(self)@.sel_col - 1 },
                ..old(self)@
            }),
    {
        self.sel_col = if self.sel_col == 0 {
            COLUMNS - 1
        } else {
            self.sel_col - 1
        };
    }
}


/// The status line for `r`.
fn status_text(r: &RowData, sch: &Schematic) -> (s: String)
    requires
        sch.wf(),
    ensures
        s@ == status_for(r@, sch@),
{
    if r.reference.as_str().unicode_len() == 0 || r.pin_prefix.as_str().unicode_len() == 0 {
        return App::help_status();
    }
    let fmt = chars_of(r.pin_prefix.as_str());
    let pat: Vec<char> = vec!['%', 'd'];
    assert(pat@ =~= pct_d());
    if !exec_contains(&fmt, &pat) {
        return String::from_str(
            "Pin Prefix must contain %d  e.g.: A%d  A_%d  A_{%d} | Tab:次列 a:追加 d:削除 g:生成 q:終了",
        );
    }
    let start: i32 = match parse_i32(r.start.as_str()) {
        Some(v) => v,
        None => 0,
    };
    let first_pin = Schematic::first_pin_name(r.pin_prefix.as_str(), start);
    match sch.pin_out_direction(r.reference.as_str(), first_pin.as_str()) {
        Some(d) => {
            let mut s = String::from_str("Pin direction: ");
            s.append(
                match d {
                    PinOutDir::Right => "Right",
                    PinOutDir::Left => "Left",
                    PinOutDir::Up => "Up",
                    PinOutDir::Down => "Down",
                },
            );
            s.append("  (自動判定)  例: ");
            s.append(r.pin_prefix.as_str());
            s.append(" => ");
            s.append(first_pin.as_str());
            s.append(" | Tab:次列 a:追加 d:削除 g:生成 q:終了");
            s
        },
        None => {
            let mut s = String::from_str("Warning: pin '");
            s.append(first_pin.as_str());
            s.append("' not found on '");
            s.append(r.reference.as_str());
            s.append("'  format例: A%d  A_%d  A_{%d} | Tab:次列 a:追加 d:削除 g:生成 q:終了");
            s
        },
    }
}

/// Appends `e` to `errors` when `cond` holds.
fn push_error_if(errors: &mut Vec<String>, cond: bool, prefix: &String, what: &str)
    ensures
        string_views(final(errors)@) == string_views(old(errors)@) + error_if(cond, prefix@ + what@),
{
    if cond {
        let mut e = prefix.clone();
        e.append(what);
        let ghost before = string_views(errors@);
        errors.push(e);
        assert(string_views(errors@) =~= before + error_if(cond, prefix@ + what@));
    } else {
        assert(string_views(errors@) =~= string_views(errors@) + error_if(cond, prefix@ + what@));
    }
}

fn cell_problems(p: &String, r: &RowData, errors: &mut Vec<String>)
    ensures
        string_views(final(errors)@) == string_views(old(errors)@) + cell_errors(p@, r@),
{
    let ghost e0 = string_views(errors@);
    let empty_ref = r.reference.as_str().unicode_len() == 0;
    let empty_fmt = r.pin_prefix.as_str().unicode_len() == 0;
    let empty_prefix = r.prefix.as_str().unicode_len() == 0;
    let bad_start = parse_i32(r.start.as_str()).is_none();
    let bad_end = parse_i32(r.end.as_str()).is_none();
    let bad_wire = parse_scaled(r.wire_len.as_str(), 8, INCH_LIMIT).is_none();
    push_error_if(errors, empty_ref, p, ": Ref empty");
    push_error_if(errors, empty_fmt, p, ": Pin Prefix empty");
    push_error_if(errors, empty_prefix, p, ": Prefix empty");
    push_error_if(errors, bad_start, p, ": Start invalid");
    push_error_if(errors, bad_end, p, ": End invalid");
    push_error_if(errors, bad_wire, p, ": Wire len invalid");
    assert(string_views(errors@) =~= e0 + cell_errors(p@, r@));
}

fn format_problems(p: &String, r: &RowData, sch: &Schematic, errors: &mut Vec<String>)
    requires
        row_fits(r@),
    ensures
        string_views(final(errors)@) == string_views(old(errors)@) + format_errors(p@, r@, sch@),
{
    let ghost e0 = string_views(errors@);
    if r.pin_prefix.as_str().unicode_len() > 0 {
        let fmt = chars_of(r.pin_prefix.as_str());
        let pat: Vec<char> = vec!['%', 'd'];
        assert(pat@ =~= pct_d());
        if !exec_contains(&fmt, &pat) {
            let mut e = p.clone();
            e.append(": Pin Prefix must contain %d");
            errors.push(e);
            assert(string_views(errors@) =~= e0 + format_errors(p@, r@, sch@));
        } else {
            let s: i32 = match parse_i32(r.start.as_str()) {
                Some(v) => v,
                None => 0,
            };
            let t: i32 = match parse_i32(r.end.as_str()) {
                Some(v) => v,
                None => 0,
            };
            match sch.resolve_pin_names(r.reference.as_str(), r.pin_prefix.as_str(), s, t) {
                Err(msg) => {
                    let mut e = p.clone();
                    e.append(": ");
                    e.append(msg.as_str());
                    errors.push(e);
                    assert(string_views(errors@) =~= e0 + format_errors(p@, r@, sch@));
                },
                Ok(_) => {
                    assert(string_views(errors@) =~= e0 + format_errors(p@, r@, sch@));
                },
            }
        }
    } else {
        assert(string_views(errors@) =~= e0 + format_errors(p@, r@, sch@));
    }
}

/// The problems of one row.
fn row_problems(n: usize, r: &RowData, sch: &Schematic, errors: &mut Vec<String>)
    requires
        row_fits(r@),
    ensures
        string_views(final(errors)@) == string_views(old(errors)@) + row_errors(n as int, r@, sch@),
{
    let ghost e0 = string_views(errors@);
    let mut p = String::from_str("Row ");
    crate::text::append_nat_digits(&mut p, n as u64);
    assert(p@ == row_prefix(n as int));
    cell_problems(&p, r, errors);
    format_problems(&p, r, sch, errors);
    assert(string_views(errors@) =~= e0 + row_errors(n as int, r@, sch@));
}

impl App {
    /// The suggestions for the cell under the cursor.
    pub fn suggestions(&self, sch: &Schematic) -> (r: Vec<String>)
        requires
            app_wf(self@),
        ensures
            string_views(r@) == suggestions_for(self@, sch@),
    {
        if self.sel_col == 0 {
            sch.references()
        } else if self.sel_col == 1 {
            sch.pin_prefixes_for(self.rows[self.sel_row].reference.as_str())
        } else {
            let r: Vec<String> = Vec::new();
            assert(string_views(r@) =~= Seq::<Seq<char>>::empty());
            r
        }
    }

    /// Shows the direction of the first pin of the current row (or help,
    /// or a warning) in the status line.
    pub fn refresh_status(&mut self, sch: &Schematic)
        requires
            app_wf(old(self)@),
            sch.wf(),
        ensures
            final(self)@ == (AppView {
                status: status_for(old(self)@.rows[old(self)@.sel_row], sch@),
                ..old(self)@
            }),
    {
        let s = status_text(&self.rows[self.sel_row], sch);
        self.status = s;
    }

    /// The problems that keep the rows from being generated.
    pub fn validate(&self, sch: &Schematic) -> (r: Vec<String>)
        requires
            rows_fit(self@.rows),
        ensures
            string_views(r@) == errors_of(self@.rows, sch@),
    {
        let ghost rv = row_views(self.rows@);
        let mut errors: Vec<String> = Vec::new();
        let mut i: usize = 0;
        assert(rv.take(0) =~= Seq::<RowView>::empty());
        assert(string_views(errors@) =~= Seq::<Seq<char>>::empty());
        while i < self.rows.len()
            invariant
                i <= self.rows.len(),
                rv == row_views(self.rows@),
                rows_fit(rv),
                string_views(errors@) == errors_of(rv.take(i as int), sch@),
            decreases self.rows.len() - i,
        {
            assert(rv.take(i + 1).drop_last() =~= rv.take(i as int));
            assert(rv.take(i + 1).last() == self.rows@[i as int]@);
            assert(row_fits(rv[i as int]));
            row_problems(i + 1, &self.rows[i], sch, &mut errors);
            i += 1;
        }
        assert(rv.take(i as int) =~= rv);
        errors
    }

    /// Whether every row can be resolved without its count overflowing
    /// (`validate` requires it).
    pub fn rows_in_range(&self) -> (r: bool)
        ensures
            r == rows_fit(self@.rows),
    {
        let ghost rv = row_views(self.rows@);
        let mut i: usize = 0;
        while i < self.rows.len()
            invariant
                i <= self.rows.len(),
                rv == row_views(self.rows@),
                forall|k: int| 0 <= k < i ==> row_fits(#[trigger] rv[k]),
            decreases self.rows.len() - i,
        {
            let r = &self.rows[i];
            assert(rv[i as int] == r@);
            if r.pin_prefix.as_str().unicode_len() > 0 {
                let fmt = chars_of(r.pin_prefix.as_str());
                let pat: Vec<char> = vec!['%', 'd'];
                assert(pat@ =~= pct_d());
                if exec_contains(&fmt, &pat) {
                    let s: i64 = match parse_i32(r.start.as_str()) {
                        Some(v) => v as i64,
                        None => 0,
                    };
                    let t: i64 = match parse_i32(r.end.as_str()) {
                        Some(v) => v as i64,
                        None => 0,
                    };
                    if !(-2147483647 < t - s && t - s < 2147483647) {
                        return false;
                    }
                }
            }
            i += 1;
        }
        true
    }

    /// The bus groups of the rows whose numbers read, in order.
    pub fn bus_specs(&self) -> (r: Vec<BusSpec>)
        ensures
            forall|i: int| 0 <= i < r@.len() ==> -WIRE_LIMIT <= (#[trigger] r@[i]).wire_len <= WIRE_LIMIT,
            bus_spec_views(r@) == rows_bus_specs(row_views(self.rows@)),
            rows_convert(row_views(self.rows@)) ==> r@.len() == self.rows@.len() && forall|i: int|
                0 <= i < r@.len() ==> Some((#[trigger] r@[i])@) == row_bus_spec(self.rows@[i]@),
    {
        let ghost rv = row_views(self.rows@);
        let mut out: Vec<BusSpec> = Vec::new();
        let mut i: usize = 0;
        assert(rv.take(0) =~= Seq::<RowView>::empty());
        assert(bus_spec_views(out@) =~= Seq::<BusSpecView>::empty());
        while i < self.rows.len()
            invariant
                i <= self.rows.len(),
                rv == row_views(self.rows@),
                bus_spec_views(out@) == rows_bus_specs(rv.take(i as int)),
                forall|k: int| 0 <= k < out@.len() ==> -WIRE_LIMIT <= (#[trigger] out@[k]).wire_len <= WIRE_LIMIT,
            decreases self.rows.len() - i,
        {
            assert(rv.take(i + 1).drop_last() =~= rv.take(i as int));
            assert(rv.take(i + 1).last() == self.rows@[i as int]@);
            let ghost before = bus_spec_views(out@);
            if let Some(b) = self.rows[i].to_bus_spec() {
                out.push(b);
                assert(bus_spec_views(out@) =~= before.push(b@));
            }
            i += 1;
        }
        assert(rv.take(i as int) =~= rv);
        proof {
            if rows_convert(rv) {
                lemma_rows_convert(rv);
                assert forall|i: int| 0 <= i < out@.len() implies Some((#[trigger] out@[i])@)
                    == row_bus_spec(self.rows@[i]@) by {
                    assert(bus_spec_views(out@)[i] == out@[i]@);
                    assert(rv[i] == self.rows@[i]@);
                }
            }
        }
        out
    }
}

/// Every row reads as a bus group.
pub open spec fn rows_convert(rows: Seq<RowView>) -> bool {
    forall|i: int| 0 <= i < rows.len() ==> (#[trigger] row_bus_spec(rows[i])) is Some
}

/// Where every row reads, the bus groups are those of the rows, one each.
pub proof fn lemma_rows_convert(rows: Seq<RowView>)
    requires
        rows_convert(rows),
    ensures
        rows_bus_specs(rows).len() == rows.len(),
        forall|i: int|
            0 <= i < rows.len() ==> Some(#[trigger] rows_bus_specs(rows)[i]) == row_bus_spec(rows[i]),
    decreases rows.len(),
{
    if rows.len() > 0 {
        let r0 = rows.drop_last();
        assert forall|i: int| 0 <= i < r0.len() implies (#[trigger] row_bus_spec(r0[i])) is Some by {
            assert(r0[i] == rows[i]);
        }
        lemma_rows_convert(r0);
        assert(row_bus_spec(rows[rows.len() - 1]) is Some);
        assert forall|i: int|
            0 <= i < rows.len() implies Some(#[trigger] rows_bus_specs(rows)[i]) == row_bus_spec(rows[i]) by {
            if i < rows.len() - 1 {
                assert(r0[i] == rows[i]);
            }
        }
    }
}

/// The bus groups of the rows whose numbers read, in order.
pub open spec fn rows_bus_specs(rows: Seq<RowView>) -> Seq<BusSpecView>
    decreases rows.len(),
{
    if rows.len() == 0 {
        Seq::empty()
    } else {
        rows_bus_specs(rows.drop_last()) + match row_bus_spec(rows.last()) {
            Some(b) => seq![b],
            None => Seq::empty(),
        }
    }
}


// ────────────────────────────────────────────
// Keys
// ────────────────────────────────────────────

/// A key press, as far as the editor tells keys apart.
#[derive(Clone, Copy, Debug, PartialEq, Eq, Structural)]
pub enum Key {
    Esc,
    Enter,
    Tab { shift: bool },
    Backspace,
    Char(char),
    Up,
    Down,
    Left,
    Right,
    Other,
}

/// What the loop does after a key: go on, quit without generating, or
/// generate.
#[derive(Clone, Copy, Debug, PartialEq, Eq, Structural)]
pub enum KeyOutcome {
    Continue,
    Quit,
    Generate,
}

pub open spec fn with_status_of_row(a: AppView, v: SchematicView) -> AppView {
    AppView { status: status_for(a.rows[a.sel_row], v), ..a }
}

pub open spec fn next_col_spec(a: AppView) -> AppView {
    AppView { sel_col: (a.sel_col + 1) % (COLUMNS as int), ..a }
}

pub open spec fn prev_col_spec(a: AppView) -> AppView {
    AppView { sel_col: if a.sel_col == 0 { COLUMNS - 1 } else { a.sel_col - 1 }, ..a }
}

/// A key while a cell is being edited: Esc drops the edit, Enter or Tab
/// stores it and moves to the next column, Backspace and characters edit
/// the text.
pub open spec fn editing_step(a: AppView, key: Key, v: SchematicView) -> (AppView, KeyOutcome) {
    match key {
        Key::Esc => (
            AppView { editing: false, edit_buf: Seq::empty(), status: help_text(), ..a },
            KeyOutcome::Continue,
        ),
        Key::Enter | Key::Tab { .. } => {
            let stored = AppView {
                rows: a.rows.update(a.sel_row, with_column(a.rows[a.sel_row], a.sel_col, a.edit_buf)),
                editing: false,
                edit_buf: Seq::empty(),
                ..a
            };
            (with_status_of_row(next_col_spec(stored), v), KeyOutcome::Continue)
        },
        Key::Backspace => (
            AppView {
                edit_buf: if a.edit_buf.len() > 0 { a.edit_buf.drop_last() } else { a.edit_buf },
                ..a
            },
            KeyOutcome::Continue,
        ),
        Key::Char(c) => (AppView { edit_buf: a.edit_buf.push(c), ..a }, KeyOutcome::Continue),
        _ => (a, KeyOutcome::Continue),
    }
}

/// A key while moving around: q or Esc quits, g generates when the rows
/// have no problems (else shows them), a adds a row, d deletes one, arrows
/// and Tab move, Enter or another character starts editing the cell.
pub open spec fn moving_step(a: AppView, key: Key, v: SchematicView) -> (AppView, KeyOutcome) {
    match key {
        Key::Esc => (AppView { generate: false, ..a }, KeyOutcome::Quit),
        Key::Char(c) => if c == 'q' {
            (AppView { generate: false, ..a }, KeyOutcome::Quit)
        } else if c == 'g' {
            let errors = errors_of(a.rows, v);
            if errors.len() == 0 {
                (AppView { generate: true, ..a }, KeyOutcome::Generate)
            } else {
                (AppView { status: join_bar(errors), ..a }, KeyOutcome::Continue)
            }
        } else if c == 'a' {
            (
                AppView {
                    rows: a.rows.push(default_row()),
                    sel_row: a.rows.len() as int,
                    sel_col: 0,
                    status: help_text(),
                    ..a
                },
                KeyOutcome::Continue,
            )
        } else if c == 'd' {
            if a.rows.len() > 1 {
                let rows = a.rows.remove(a.sel_row);
                let sel = if a.sel_row >= rows.len() { rows.len() - 1 } else { a.sel_row };
                (with_status_of_row(AppView { rows, sel_row: sel, ..a }, v), KeyOutcome::Continue)
            } else {
                (a, KeyOutcome::Continue)
            }
        } else {
            (AppView { editing: true, edit_buf: seq![c], ..a }, KeyOutcome::Continue)
        },
        Key::Up => if a.sel_row > 0 {
            (with_status_of_row(AppView { sel_row: a.sel_row - 1, ..a }, v), KeyOutcome::Continue)
        } else {
            (a, KeyOutcome::Continue)
        },
        Key::Down => if a.sel_row + 1 < a.rows.len() {
            (with_status_of_row(AppView { sel_row: a.sel_row + 1, ..a }, v), KeyOutcome::Continue)
        } else {
            (a, KeyOutcome::Continue)
        },
        Key::Tab { shift } => if shift {
            (prev_col_spec(a), KeyOutcome::Continue)
        } else {
            (next_col_spec(a), KeyOutcome::Continue)
        },
        Key::Right => (next_col_spec(a), KeyOutcome::Continue),
        Key::Left => (prev_col_spec(a), KeyOutcome::Continue),
        Key::Enter => (
            AppView { editing: true, edit_buf: column_text(a.rows[a.sel_row], a.sel_col), ..a },
            KeyOutcome::Continue,
        ),
        _ => (a, KeyOutcome::Continue),
    }
}

pub open spec fn key_step(a: AppView, key: Key, v: SchematicView) -> (AppView, KeyOutcome) {
    if a.editing {
        editing_step(a, key, v)
    } else {
        moving_step(a, key, v)
    }
}

/// The strings of `v` joined by ` | `.
fn join_with_bar(v: &Vec<String>) -> (r: String)
    ensures
        r@ == join_bar(string_views(v@)),
{
    let ghost sv = string_views(v@);
    let mut out = String::new();
    let mut i: usize = 0;
    while i < v.len()
        invariant
            i <= v.len(),
            sv == string_views(v@),
            out@ == join_bar(sv.take(i as int)),
        decreases v.len() - i,
    {
        if i > 0 {
            out.append(" | ");
        }
        out.append(v[i].as_str());
        proof {
            let t = sv.take(i + 1);
            assert(t.drop_last() =~= sv.take(i as int));
            assert(t.last() == v@[i as int]@);
            if i == 0 {
                assert(sv.take(0) =~= Seq::<Seq<char>>::empty());
            }
            assert(out@ =~= join_bar(t));
        }
        i += 1;
    }
    assert(sv.take(i as int) =~= sv);
    out
}

impl App {
    /// Handles one key press (see `key_step`). `key_step` keeps the editor
    /// well formed for every key and every sequence of keys, the `g` key
    /// included (`properties::lemma_keys_keep_editor`); only the executable
    /// check of the rows behind `g` asks that their counts fit.
    pub fn handle_key(&mut self, key: Key, sch: &Schematic) -> (r: KeyOutcome)
        requires
            app_wf(old(self)@),
            sch.wf(),
            !old(self)@.editing && key == Key::Char('g') ==> rows_fit(old(self)@.rows),
        ensures
            (final(self)@, r) == key_step(old(self)@, key, sch@),
            app_wf(final(self)@),
    {
        if self.editing {
            match key {
                Key::Esc => {
                    self.editing = false;
                    self.edit_buf = String::new();
                    self.status = App::help_status();
                },
                Key::Enter | Key::Tab { .. } => {
                    let val = self.edit_buf.clone();
                    let mut row = self.rows.remove(self.sel_row);
                    row.set_col(self.sel_col, val);
                    self.rows.insert(self.sel_row, row);
                    self.editing = false;
                    self.edit_buf = String::new();
                    self.next_col();
                    self.refresh_status(sch);
                },
                Key::Backspace => {
                    let cs = chars_of(self.edit_buf.as_str());
                    if cs.len() > 0 {
                        let mut b = String::new();
                        crate::text::append_chars(&mut b, &cs, 0, cs.len() - 1);
                        self.edit_buf = b;
                    }
                },
                Key::Char(c) => {
                    crate::text::push_char(&mut self.edit_buf, c);
                },
                _ => {},
            }
            assert(row_views(self.rows@) =~= key_step(old(self)@, key, sch@).0.rows);
            KeyOutcome::Continue
        } else {
            match key {
                Key::Esc => {
                    self.generate = false;
                    KeyOutcome::Quit
                },
                Key::Char(c) => {
                    if c == 'q' {
                        self.generate = false;
                        KeyOutcome::Quit
                    } else if c == 'g' {
                        let errors = self.validate(sch);
                        if errors.len() == 0 {
                            self.generate = true;
                            KeyOutcome::Generate
                        } else {
                            self.status = join_with_bar(&errors);
                            KeyOutcome::Continue
                        }
                    } else if c == 'a' {
                        self.rows.push(RowData::default());
                        self.sel_row = self.rows.len() - 1;
                        self.sel_col = 0;
                        self.status = App::help_status();
                        assert(row_views(self.rows@) =~= old(self)@.rows.push(default_row()));
                        KeyOutcome::Continue
                    } else if c == 'd' {
                        if self.rows.len() > 1 {
                            let _ = self.rows.remove(self.sel_row);
                            if self.sel_row >= self.rows.len() {
                                self.sel_row = self.rows.len() - 1;
                            }
                            assert(row_views(self.rows@) =~= old(self)@.rows.remove(
                                old(self)@.sel_row,
                            ));
                            self.refresh_status(sch);
                        }
                        KeyOutcome::Continue
                    } else {
                        self.editing = true;
                        self.edit_buf = crate::text::string_of_char(c);
                        KeyOutcome::Continue
                    }
                },
                Key::Up => {
                    if self.sel_row > 0 {
                        self.sel_row -= 1;
                        self.refresh_status(sch);
                    }
                    KeyOutcome::Continue
                },
                Key::Down => {
                    if self.sel_row < self.rows.len() - 1 {
                        self.sel_row += 1;
                        self.refresh_status(sch);
                    }
                    KeyOutcome::Continue
                },
                Key::Tab { shift } => {
                    if shift {
                        self.prev_col();
                    } else {
                        self.next_col();
                    }
                    KeyOutcome::Continue
                },
                Key::Right => {
                    self.next_col();
                    KeyOutcome::Continue
                },
                Key::Left => {
                    self.prev_col();
                    KeyOutcome::Continue
                },
                Key::Enter => {
                    self.editing = true;
                    self.edit_buf = String::from_str(self.rows[self.sel_row].get_col(self.sel_col));
                    KeyOutcome::Continue
                },
                _ => KeyOutcome::Continue,
            }
        }
    }
}


// ────────────────────────────────────────────
// Filtering suggestions
// ────────────────────────────────────────────

/// What `str::to_lowercase` gives: the text with each character mapped to
/// its lowercase form (Unicode rules).
pub uninterp spec fn lowercase(s: Seq<char>) -> Seq<char>;

/// `str::to_lowercase`.
#[verifier::external_body]
fn to_lowercase(s: &str) -> (r: String)
    ensures
        r@ == lowercase(s@),
{
    s.to_lowercase()
}

/// The suggestions shown, at most eight.
pub const SHOWN_SUGGESTIONS: usize = 8;

/// The suggestions whose lowercase form holds the lowercase `filter`, in
/// order, at most eight.
pub open spec fn matching_suggestions(s: Seq<Seq<char>>, filter: Seq<char>) -> Seq<Seq<char>>
    decreases s.len(),
{
    if s.len() == 0 {
        Seq::empty()
    } else {
        let before = matching_suggestions(s.drop_last(), filter);
        if before.len() < SHOWN_SUGGESTIONS && contains(lowercase(s.last()), lowercase(filter)) {
            before.push(s.last())
        } else {
            before
        }
    }
}

/// The suggestions to show while `filter` is typed: those that hold it,
/// ignoring case, at most eight.
pub fn filter_suggestions(suggestions: &Vec<String>, filter: &str) -> (r: Vec<String>)
    ensures
        string_views(r@) == matching_suggestions(string_views(suggestions@), filter@),
{
    let ghost sv = string_views(suggestions@);
    let f = to_lowercase(filter);
    let fc = chars_of(f.as_str());
    let mut out: Vec<String> = Vec::new();
    let mut i: usize = 0;
    assert(sv.take(0) =~= Seq::<Seq<char>>::empty());
    assert(string_views(out@) =~= Seq::<Seq<char>>::empty());
    while i < suggestions.len()
        invariant
            i <= suggestions.len(),
            sv == string_views(suggestions@),
            fc@ == lowercase(filter@),
            string_views(out@) == matching_suggestions(sv.take(i as int), filter@),
        decreases suggestions.len() - i,
    {
        proof {
            assert(sv.take(i + 1).drop_last() =~= sv.take(i as int));
            assert(sv.take(i + 1).last() == suggestions@[i as int]@);
        }
        let ghost before = string_views(out@);
        if out.len() < SHOWN_SUGGESTIONS {
            let low = to_lowercase(suggestions[i].as_str());
            let lc = chars_of(low.as_str());
            if exec_contains(&lc, &fc) {
                out.push(suggestions[i].clone());
                assert(string_views(out@) =~= before.push(suggestions@[i as int]@));
            }
        }
        i += 1;
    }
    assert(sv.take(i as int) =~= sv);
    out
}

} // verus!
