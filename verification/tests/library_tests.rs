use kicad_bus_gen::generator::{generate_and_append, Layout};
use kicad_bus_gen::parser::{parse_schematic, pin_name_to_format, tokenizable, PinOutDir, Schematic};
use kicad_bus_gen::sexpr::{parse_sexprs, tokenize, SExpr, Token};
use kicad_bus_gen::session::{session_path, SavedRow};
use kicad_bus_gen::text::{parse_angle, parse_decimal, parse_i32};
use kicad_bus_gen::tui::{App, BusSpec, Key, KeyOutcome, RowData};

const SCH: &str = r##"
(kicad_sch (version 20231120) (generator "eeschema") (uuid "root")
  (lib_symbols
    (symbol "Test:IC"
      (in_bom yes) (on_board yes)
      (symbol "IC_0_1"
        (pin input line (at -5.08  5.08 0) (length 2.54)
          (name "A_{0}" (effects (font (size 1.27 1.27)))) (number "1" (effects (font (size 1.27 1.27)))))
        (pin input line (at -5.08  2.54 0) (length 2.54)
          (name "A_{1}" (effects (font (size 1.27 1.27)))) (number "2" (effects (font (size 1.27 1.27)))))
        (pin input line (at -5.08  0.00 0) (length 2.54)
          (name "A_{2}" (effects (font (size 1.27 1.27)))) (number "3" (effects (font (size 1.27 1.27)))))
        (pin input line (at 5.08 0.00 180) (length 2.54)
          (name "D7" (effects (font (size 1.27 1.27)))) (number "4" (effects (font (size 1.27 1.27)))))
        (pin input line (at 0 -7.62 90) (length 2.54)
          (name "VCC" (effects (font (size 1.27 1.27)))) (number "5" (effects (font (size 1.27 1.27)))))
      )
    )
  )
  (symbol (lib_id "Test:IC") (at 100.0 50.0 0)
    (in_bom yes) (on_board yes) (uuid "s1")
    (instances (project "t" (path "/root" (reference "U1") (unit 1))))
  )
  (symbol (lib_id "Test:IC") (at 20 30 90) (mirror x)
    (instances (project "t" (path "/root" (reference "U2") (unit 1))))
  )
  (symbol (lib_id "Test:IC") (at 0 0 0)
    (instances (project "t" (path "/root" (reference "#PWR01") (unit 1))))
  )
)
"##;

fn spec(reference: &str, fmt: &str, prefix: &str, start: i32, end: i32, wire: i64) -> BusSpec {
    BusSpec {
        reference: reference.to_string(),
        pin_prefix: fmt.to_string(),
        prefix: prefix.to_string(),
        start,
        end,
        wire_len: wire,
    }
}

// ── reading the file ─────────────────────────────

#[test]
fn parses_symbols_and_pins() {
    let sch = parse_schematic(SCH).unwrap();
    assert_eq!(sch.symbols.len(), 3);
    assert_eq!(sch.symbols[1].reference, "U2");
    assert_eq!(sch.symbols[1].x, 200000);
    assert_eq!(sch.symbols[1].angle, 900000);
    assert!(sch.symbols[1].mirror_x);
    assert!(!sch.symbols[1].mirror_y);
    let lib = sch.lib_symbol("Test:IC").unwrap();
    assert_eq!(lib.pins.len(), 5);
    assert_eq!(lib.pins[3].name, "D7");
    assert_eq!(lib.pins[3].number, "4");
    assert_eq!(lib.pins[3].angle, 1800000);
    assert_eq!(lib.pins[0].length, 25400);
    assert!(sch.lib_symbol("Other").is_none());
}

#[test]
fn missing_root_is_an_error() {
    assert_eq!(parse_schematic("(foo (bar))").err(), Some("No kicad_sch found".to_string()));
}

#[test]
fn quoted_atoms_keep_escaped_characters() {
    let src = r#"(kicad_sch (lib_symbols (symbol "a\"b" (pin (at 1 2) (name "x\\y") (number "1")))))"#;
    let sch = parse_schematic(src).unwrap();
    let lib = sch.lib_symbol("a\"b").unwrap();
    assert_eq!(lib.pins[0].name, "x\\y");
    assert_eq!(lib.pins[0].rel_x, 10000);
}

#[test]
fn missing_name_value_reads_as_tilde() {
    let src = "(kicad_sch (lib_symbols (symbol \"S\" (pin (at 1 2) (name) (number)))))";
    let sch = parse_schematic(src).unwrap();
    let lib = sch.lib_symbol("S").unwrap();
    assert_eq!(lib.pins[0].name, "~");
    assert_eq!(lib.pins[0].number, "");
}

#[test]
fn unusual_white_space_cannot_be_read() {
    assert!(tokenizable(SCH));
    assert!(!tokenizable("(kicad_sch\u{a0})"));
    assert!(tokenizable("(kicad_sch \"\u{a0}\")"));
}

#[test]
fn references_are_sorted_without_power_symbols() {
    let sch = parse_schematic(SCH).unwrap();
    assert_eq!(sch.references(), vec!["U1", "U2"]);
    assert!(sch.find_symbol("#PWR01").is_some());
}

#[test]
fn pin_names_are_sorted() {
    let sch = parse_schematic(SCH).unwrap();
    assert_eq!(sch.pin_names_for("U1"), vec!["A_{0}", "A_{1}", "A_{2}", "D7", "VCC"]);
    assert_eq!(sch.pin_names_for("U9"), Vec::<String>::new());
    assert_eq!(sch.pin_prefixes_for("U1"), vec!["A_{%d}", "D%d"]);
}

// ── numbers ──────────────────────────────────────

#[test]
fn decimals_read_in_ten_thousandths() {
    assert_eq!(parse_decimal("1.5"), Some(15000));
    assert_eq!(parse_decimal(".5"), Some(5000));
    assert_eq!(parse_decimal("5."), Some(50000));
    assert_eq!(parse_decimal("-2.54"), Some(-25400));
    assert_eq!(parse_decimal("+0.00019"), Some(2));
    assert_eq!(parse_decimal("100.00005"), Some(1000001));
    assert_eq!(parse_decimal("-0.00005"), Some(-1));
    assert_eq!(parse_decimal("-0.00004"), Some(0));
    assert_eq!(parse_decimal("."), None);
    assert_eq!(parse_decimal("abc"), None);
    assert_eq!(parse_decimal("1.2.3"), None);
}

#[test]
fn decimals_read_as_f64_text() {
    assert_eq!(parse_decimal("1e3"), Some(10_000_000));
    assert_eq!(parse_decimal("2.5E-1"), Some(2500));
    assert_eq!(parse_decimal("+.5e1"), Some(50000));
    assert_eq!(parse_decimal("1e-99999999999999999999999"), Some(0));
    assert_eq!(parse_decimal("0e99999999999999999999999"), Some(0));
    assert_eq!(parse_decimal("1e400"), None);
    assert_eq!(parse_decimal("inf"), None);
    assert_eq!(parse_decimal("NaN"), None);
    assert_eq!(parse_decimal("1e"), None);
    for t in ["1e3", "1.", ".5", "2E+07", "0.1e-2", "-0", "+1.25e+2"] {
        let v: f64 = t.parse().unwrap();
        assert_eq!(parse_decimal(t), Some((v * 10000.0).round() as i64), "{}", t);
    }
    for t in ["", ".", "e1", "1e", "1e+", " 1", "1 ", "infinit", "1.2.3", "--1", "0x10"] {
        assert!(t.parse::<f64>().is_err(), "{}", t);
        assert_eq!(parse_decimal(t), None, "{}", t);
    }
    // "inf" and "nan" read as f64 but have no fixed-point value
    for t in ["inf", "-Infinity", "NaN", "+nan"] {
        assert!(t.parse::<f64>().is_ok(), "{}", t);
        assert_eq!(parse_decimal(t), None, "{}", t);
    }
}

#[test]
fn angles_truncate_toward_zero() {
    assert_eq!(parse_angle("89.99999"), Some(899999));
    assert_eq!(parse_angle("-0.00009"), Some(0));
    assert_eq!(parse_angle("90"), Some(900000));
    assert_eq!(parse_angle("1e2"), Some(1000000));
    // a symbol at 89.99999 degrees has whole angle 89, which acts as 0
    let near = parse_schematic(&SCH.replace("(at 100.0 50.0 0)", "(at 100.0 50.0 89.99999)")).unwrap();
    assert_eq!(near.pin_out_direction("U1", "D7"), Some(PinOutDir::Right));
    assert_eq!(near.pin_out_direction("U1", "VCC"), Some(PinOutDir::Down));
}

#[test]
fn integers_read_as_i32() {
    assert_eq!(parse_i32("+5"), Some(5));
    assert_eq!(parse_i32("-2147483648"), Some(i32::MIN));
    assert_eq!(parse_i32("2147483648"), None);
    assert_eq!(parse_i32("-"), None);
    assert_eq!(parse_i32(""), None);
    assert_eq!(parse_i32("1x"), None);
}

// ── formats ──────────────────────────────────────

#[test]
fn formats_round_trip() {
    for fmt in ["A%d", "D_%d", "A_{%d}", "{%d}"] {
        for n in [0, 7, 15, 123] {
            let name = Schematic::first_pin_name(fmt, n);
            assert_eq!(pin_name_to_format(&name), Some(fmt.to_string()), "{}", name);
        }
    }
    assert_eq!(pin_name_to_format("15"), None);
    assert_eq!(pin_name_to_format("A_{}"), None);
    assert_eq!(pin_name_to_format("A_{x1}"), None);
    assert_eq!(Schematic::first_pin_name("A%d_%d", -3), "A-3_-3");
}

#[test]
fn resolve_reports_candidates() {
    let sch = parse_schematic(SCH).unwrap();
    let err = sch.resolve_pin_names("U1", "A_{%d}", 0, 3).unwrap_err();
    assert_eq!(
        err,
        "Pin 'A_{3}' not found on 'U1'. Format 'A_{%d}' matches: [\"A_{0}\", \"A_{1}\", \"A_{2}\"]"
    );
    let err = sch.resolve_pin_names("U1", "A_", 0, 1).unwrap_err();
    assert_eq!(err, "Pin format 'A_' must contain %d  (e.g. 'A%d' or 'A_{%d}')");
}

#[test]
fn resolve_either_way_round() {
    let sch = parse_schematic(SCH).unwrap();
    let up = sch.resolve_pin_names("U1", "A_{%d}", 0, 2).unwrap();
    let mut down = sch.resolve_pin_names("U1", "A_{%d}", 2, 0).unwrap();
    down.reverse();
    assert_eq!(up, down);
    assert_eq!(sch.resolve_pin_names("U1", "A_{%d}", 1, 1).unwrap(), vec!["A_{1}"]);
}

// ── geometry ─────────────────────────────────────

#[test]
fn diagonal_pins_follow_f64_rounding() {
    // at 45° and 225° the f64 cosine is the larger, at 135° and 315° the sine
    let src = r#"(kicad_sch
  (lib_symbols
    (symbol "T:D"
      (symbol "D_0_1"
        (pin input line (at 0 0 45) (length 1) (name "P45") (number "1"))
        (pin input line (at 0 0 135) (length 1) (name "P135") (number "2"))
        (pin input line (at 0 0 225) (length 1) (name "P225") (number "3"))
        (pin input line (at 0 0 315) (length 1) (name "P315") (number "4")))))
  (symbol (lib_id "T:D") (at 0 0 0)
    (instances (project "t" (path "/r" (reference "X1") (unit 1)))))
  (symbol (lib_id "T:D") (at 0 0 90)
    (instances (project "t" (path "/r" (reference "X2") (unit 1)))))
)"#;
    let sch = parse_schematic(src).unwrap();
    let dirs = |r: &str| -> Vec<PinOutDir> {
        ["P45", "P135", "P225", "P315"].iter().map(|p| sch.pin_out_direction(r, p).unwrap()).collect()
    };
    assert_eq!(dirs("X1"), vec![PinOutDir::Left, PinOutDir::Down, PinOutDir::Right, PinOutDir::Up]);
    // a quarter turn swaps the axes, so the other component now decides
    assert_eq!(dirs("X2"), vec![PinOutDir::Down, PinOutDir::Right, PinOutDir::Up, PinOutDir::Left]);
}

#[test]
fn mirroring_both_ways_is_a_half_turn() {
    let both = parse_schematic(&SCH.replace("(at 20 30 90) (mirror x)", "(at 20 30 90) (mirror x y)")).unwrap();
    let turned = parse_schematic(&SCH.replace("(at 20 30 90) (mirror x)", "(at 20 30 270)")).unwrap();
    for pin in ["A_{0}", "D7", "VCC"] {
        assert_eq!(both.pin_abs_position("U2", pin), turned.pin_abs_position("U2", pin));
        assert_eq!(both.pin_out_direction("U2", pin), turned.pin_out_direction("U2", pin));
    }
}

#[test]
fn directions_of_pins() {
    let sch = parse_schematic(SCH).unwrap();
    assert_eq!(sch.pin_out_direction("U1", "D7"), Some(PinOutDir::Right));
    assert_eq!(sch.pin_out_direction("U1", "VCC"), Some(PinOutDir::Down));
    // U2: turned 90 degrees and mirrored about the X axis
    assert_eq!(sch.pin_out_direction("U2", "A_{0}"), Some(PinOutDir::Down));
    let p = sch.pin_abs_position("U2", "A_{0}").unwrap();
    assert_eq!((p.x, p.y), (250800, 350800));
    assert_eq!(sch.pin_out_direction("U1", "nope"), None);
}

#[test]
fn pins_listed_by_name_or_all() {
    let sch = parse_schematic(SCH).unwrap();
    let lib = sch.lib_symbol("Test:IC").unwrap();
    assert_eq!(lib.matching_pins("*"), vec![0, 1, 2, 3, 4]);
    assert_eq!(lib.matching_pins("D7"), vec![3]);
    assert!(lib.matching_pins("nope").is_empty());
}

#[test]
fn half_turn_reverses_pins() {
    let turned = parse_schematic(&SCH.replace("(at 100.0 50.0 0)", "(at 100.0 50.0 180)")).unwrap();
    assert_eq!(turned.pin_out_direction("U1", "D7"), Some(PinOutDir::Left));
    assert_eq!(turned.pin_out_direction("U1", "VCC"), Some(PinOutDir::Up));
    assert_eq!(turned.pin_out_direction("U1", "A_{0}"), Some(PinOutDir::Right));
}

#[test]
fn formats_give_their_names_back() {
    for (name, k) in [("A_{12}", 12), ("D7", 7), ("ADDR_0", 0)] {
        let f = pin_name_to_format(name).unwrap();
        assert_eq!(Schematic::first_pin_name(&f, k), name);
    }
}

fn flatten(es: &[SExpr], out: &mut Vec<String>) {
    for e in es {
        match e {
            SExpr::Atom(a) => out.push(a.clone()),
            SExpr::List(cs) => {
                out.push("(".to_string());
                flatten(cs, out);
                out.push(")".to_string());
            }
        }
    }
}

#[test]
fn balanced_tokens_parse_back() {
    let chars: Vec<char> = "(a (b \"c d\") () e) f".chars().collect();
    let tokens = tokenize(&chars);
    let (es, used) = parse_sexprs(&tokens, 0);
    assert_eq!(used, tokens.len());
    let mut flat = Vec::new();
    flatten(&es, &mut flat);
    let written: Vec<String> = tokens
        .iter()
        .map(|t| match t {
            Token::Open => "(".to_string(),
            Token::Close => ")".to_string(),
            Token::Atom(a) => a.clone(),
        })
        .collect();
    assert_eq!(flat, written);
    // an unmatched ')' stops the parse right after it
    let chars: Vec<char> = "a) b".chars().collect();
    let (es, used) = parse_sexprs(&tokenize(&chars), 0);
    assert_eq!((es.len(), used), (1, 2));
}

#[test]
fn inverted_layout_points_the_other_way() {
    let l = Layout::from_inverted(PinOutDir::Right, 50800);
    let r = Layout::from(PinOutDir::Left, 50800);
    assert_eq!((l.wire_dx, l.entry_sx, l.label_angle), (r.wire_dx, r.entry_sx, r.label_angle));
    assert_eq!(l.label_justify, "left bottom");
    assert_eq!((l.label_dx, l.label_dy), (l.wire_dx, l.wire_dy));
}

// ── generating ───────────────────────────────────

#[test]
fn generates_elements_before_the_last_paren() {
    let sch = parse_schematic(SCH).unwrap();
    let specs = vec![spec("U1", "A_{%d}", "A", 0, 2, 50800)];
    let (text, count) = generate_and_append(SCH, &sch, &specs).unwrap();
    assert_eq!(count, 1);
    let cut = SCH.rfind(')').unwrap();
    assert!(text.starts_with(&SCH[..cut]));
    assert!(text.ends_with("  )\n)"));
    assert_eq!(text.matches("(bus_entry").count(), 3);
    assert!(text.contains("  (bus_entry (at 90.1700 44.4500) (size -2.5400 2.5400)\n    (stroke (width 0) (type default))\n    (uuid \""));
    assert!(text.contains("  (wire (pts (xy 94.9200 44.9200) (xy 90.1700 44.4500))\n"));
    assert!(text.contains("  (label \"A0\" (at 90.1700 44.4500 0)\n    (effects (font (size 1.27 1.27)) (justify left bottom))\n"));
    assert!(text.contains("(label \"A2\""));
    // the uuids are fresh v4 uuids
    let i = cut + text[cut..].find("(uuid \"").unwrap() + 7;
    let u = &text[i..i + 36];
    assert_eq!(u.as_bytes()[8], b'-');
    assert_eq!(u.as_bytes()[14], b'4');
    assert_eq!(&text[i + 36..i + 38], "\")");
}

#[test]
fn generation_errors() {
    let sch = parse_schematic(SCH).unwrap();
    let specs = vec![spec("U1", "A_{%d}", "A", 0, 5, 50800)];
    let err = generate_and_append(SCH, &sch, &specs).unwrap_err();
    assert!(err.starts_with("Pin 'A_{3}' not found on 'U1'"));
    let ok = vec![spec("U1", "D%d", "D", 7, 7, 50800)];
    assert_eq!(
        generate_and_append("no paren", &sch, &ok).unwrap_err(),
        "Invalid .kicad_sch: no closing ')'"
    );
    let (text, count) = generate_and_append(SCH, &sch, &vec![]).unwrap();
    assert_eq!(count, 0);
    assert_eq!(text, SCH[..SCH.rfind(')').unwrap()].to_string() + "\n)");
}

#[test]
fn negative_zero_keeps_its_sign() {
    // D7 of N1 connects at (-0.3, 10): with no wire the bus entry snaps to -0.0
    let src = format!(
        "{}  (symbol (lib_id \"Test:IC\") (at -5.38 10 0)\n    (instances (project \"t\" (path \"/root\" (reference \"N1\") (unit 1))))\n  )\n)",
        &SCH[..SCH.rfind(')').unwrap()]
    );
    let sch = parse_schematic(&src).unwrap();
    let specs = vec![spec("N1", "D%d", "D", 7, 7, 0)];
    let (text, _) = generate_and_append(&src, &sch, &specs).unwrap();
    assert!(text.contains("(bus_entry (at -0.0000 10.1600) (size 2.5400 2.5400)"), "{}", text);
    assert!(text.contains("(wire (pts (xy -0.3000 10.0000) (xy -0.0000 10.1600))"));
    assert!(text.contains("(label \"D7\" (at -0.0000 10.1600 180)"));
}

#[test]
fn right_facing_pin_layout() {
    let sch = parse_schematic(SCH).unwrap();
    let specs = vec![spec("U1", "D%d", "DATA", 7, 7, 25400)];
    let (text, _) = generate_and_append(SCH, &sch, &specs).unwrap();
    // D7 connects at (105.08, 50); the wire runs right by 2.54 to 107.62 -> snapped 107.95, and 50 snaps to 49.53
    assert!(text.contains("(wire (pts (xy 105.0800 50.0000) (xy 107.9500 49.5300))"));
    assert!(text.contains("(label \"DATA7\" (at 107.9500 49.5300 180)"));
    assert!(text.contains("(justify right bottom)"));
    assert!(text.contains("(size 2.5400 2.5400)"));
}

// ── session ──────────────────────────────────────

#[test]
fn session_file_beside_the_schematic() {
    assert_eq!(session_path("/w/board.kicad_sch"), "/w/board.bus_gen.json");
    assert_eq!(session_path("board"), "board.bus_gen.json");
}

#[test]
fn saved_rows_come_back() {
    let saved = SavedRow {
        reference: "U1".into(),
        pin_prefix: "A_{%d}".into(),
        prefix: "A".into(),
        start: -2,
        end: 15,
        wire_len: 50800,
    };
    let row = RowData::from_saved(&saved);
    assert_eq!(row.wire_len, "0.2000");
    assert_eq!(row.start, "-2");
    let b = row.to_bus_spec().unwrap();
    assert_eq!((b.start, b.end, b.wire_len), (-2, 15, 50800));
    assert_eq!(b.pin_prefix, "A_{%d}");
    // a small negative wire length keeps its sign when shown
    let tiny = SavedRow { wire_len: -5, ..saved.clone() };
    assert_eq!(RowData::from_saved(&tiny).wire_len, "-0.0000");
}

#[test]
fn wire_cells_read_as_f64_text() {
    let sch = parse_schematic(SCH).unwrap();
    let mut app = App::new(vec![]);
    app.rows[0].reference = "U1".into();
    app.rows[0].pin_prefix = "A_{%d}".into();
    app.rows[0].prefix = "A".into();
    app.rows[0].end = "2".into();
    app.rows[0].wire_len = "1e3".into();
    assert!(app.validate(&sch).is_empty());
    let b = app.rows[0].to_bus_spec().unwrap();
    assert_eq!(b.wire_len, 254_000_000);
    app.rows[0].wire_len = "0.00005".into();
    assert_eq!(app.rows[0].to_bus_spec().unwrap().wire_len, 13);
    // a wire that cannot be held is reported, not dropped
    for w in ["inf", "NaN", "1e400", "0.2in"] {
        app.rows[0].wire_len = w.into();
        assert!(app.rows[0].to_bus_spec().is_none(), "{}", w);
        assert_eq!(app.validate(&sch), vec!["Row 1: Wire len invalid"], "{}", w);
    }
    // rows that validate all become bus groups
    app.rows[0].wire_len = "0.2".into();
    app.handle_key(Key::Char('a'), &sch);
    app.rows[1] = app.rows[0].clone();
    app.rows[1].prefix = "B".into();
    assert_eq!(app.handle_key(Key::Char('g'), &sch), KeyOutcome::Generate);
    let specs = app.bus_specs();
    assert_eq!(specs.len(), 2);
    assert_eq!((specs[0].prefix.as_str(), specs[1].prefix.as_str()), ("A", "B"));
}

// ── the editor ───────────────────────────────────

fn type_text(app: &mut App, sch: &Schematic, text: &str) {
    app.handle_key(Key::Enter, sch);
    // Enter starts editing the current text; clear it first
    while !app.edit_buf.is_empty() {
        app.handle_key(Key::Backspace, sch);
    }
    for c in text.chars() {
        app.handle_key(Key::Char(c), sch);
    }
    app.handle_key(Key::Tab { shift: false }, sch);
}

#[test]
fn editing_rows_and_generating() {
    let sch = parse_schematic(SCH).unwrap();
    let mut app = App::new(vec![]);
    assert_eq!(app.rows.len(), 1);
    assert_eq!(app.rows[0].end, "15");
    assert_eq!(app.status, App::help_status());
    type_text(&mut app, &sch, "U1");
    assert_eq!(app.sel_col, 1);
    type_text(&mut app, &sch, "A_{%d}");
    assert!(app.status.starts_with("Pin direction: Left"), "{}", app.status);
    type_text(&mut app, &sch, "A");
    assert_eq!(app.handle_key(Key::Char('g'), &sch), KeyOutcome::Continue);
    assert!(app.status.contains("Row 1: Pin 'A_{3}' not found"), "{}", app.status);
    // End is column 4
    app.handle_key(Key::Right, &sch);
    type_text(&mut app, &sch, "2");
    assert_eq!(app.rows[0].end, "2");
    assert_eq!(app.handle_key(Key::Char('g'), &sch), KeyOutcome::Generate);
    let specs = app.bus_specs();
    assert_eq!(specs.len(), 1);
    assert_eq!((specs[0].start, specs[0].end, specs[0].wire_len), (0, 2, 50800));
}

#[test]
fn validation_messages() {
    let sch = parse_schematic(SCH).unwrap();
    let mut app = App::new(vec![]);
    app.rows[0].start = "x".into();
    app.rows[0].pin_prefix = "A_".into();
    let errors = app.validate(&sch);
    assert_eq!(
        errors,
        vec![
            "Row 1: Ref empty",
            "Row 1: Prefix empty",
            "Row 1: Start invalid",
            "Row 1: Pin Prefix must contain %d",
        ]
    );
}

#[test]
fn rows_are_added_and_deleted() {
    let sch = parse_schematic(SCH).unwrap();
    let mut app = App::new(vec![]);
    app.handle_key(Key::Char('a'), &sch);
    app.handle_key(Key::Char('a'), &sch);
    assert_eq!((app.rows.len(), app.sel_row), (3, 2));
    app.handle_key(Key::Char('d'), &sch);
    assert_eq!((app.rows.len(), app.sel_row), (2, 1));
    app.handle_key(Key::Up, &sch);
    app.handle_key(Key::Up, &sch);
    assert_eq!(app.sel_row, 0);
    app.handle_key(Key::Char('d'), &sch);
    app.handle_key(Key::Char('d'), &sch);
    assert_eq!(app.rows.len(), 1);
    app.handle_key(Key::Tab { shift: true }, &sch);
    assert_eq!(app.sel_col, 5);
    app.handle_key(Key::Left, &sch);
    app.handle_key(Key::Right, &sch);
    assert_eq!(app.sel_col, 5);
    app.handle_key(Key::Char('x'), &sch);
    assert!(app.editing);
    assert_eq!(app.edit_buf, "x");
    app.handle_key(Key::Esc, &sch);
    assert!(!app.editing);
    assert_eq!(app.rows[0].wire_len, "0.2");
    assert_eq!(app.handle_key(Key::Char('q'), &sch), KeyOutcome::Quit);
}

#[test]
fn suggestions_follow_the_column() {
    let sch = parse_schematic(SCH).unwrap();
    let mut app = App::new(vec![]);
    assert_eq!(app.suggestions(&sch), vec!["U1", "U2"]);
    app.rows[0].reference = "U1".into();
    app.handle_key(Key::Right, &sch);
    assert_eq!(app.suggestions(&sch), vec!["A_{%d}", "D%d"]);
    app.handle_key(Key::Right, &sch);
    assert!(app.suggestions(&sch).is_empty());
}
