use kicad_bus_gen::parser::{parse_schematic, pin_name_to_format, PinOutDir, Schematic};

/// Test schematic.
/// Pin A: library (-5.08, 0), angle 0 (connection point on the left).
/// Pin B: library (0, 5.08), angle 90 (connection point at the bottom).
fn make_sch(sym_angle: f64, mirror_x: bool, mirror_y: bool, reference: &str) -> String {
    let mirror_str = match (mirror_x, mirror_y) {
        (true, false) => "(mirror x)".to_string(),
        (false, true) => "(mirror y)".to_string(),
        (true, true) => "(mirror x y)".to_string(),
        _ => String::new(),
    };
    format!(r#"
(kicad_sch (version 20231120) (generator "eeschema") (uuid "root")
  (lib_symbols
    (symbol "Test:IC"
      (in_bom yes) (on_board yes)
      (symbol "IC_0_1"
        (pin input line (at -5.08 0.0 0) (length 2.54)
          (name "A" (effects (font (size 1.27 1.27))))
          (number "1" (effects (font (size 1.27 1.27)))))
        (pin input line (at 0.0 5.08 90) (length 2.54)
          (name "B" (effects (font (size 1.27 1.27))))
          (number "2" (effects (font (size 1.27 1.27)))))
      )
    )
  )
  (symbol (lib_id "Test:IC") (at 100.0 50.0 {angle}) {mirror}
    (in_bom yes) (on_board yes) (uuid "s1")
    (instances (project "t" (path "/root" (reference "{ref}") (unit 1))))
  )
)
"#, angle=sym_angle, mirror=mirror_str, ref=reference)
}

/// A coordinate in millimetres.
fn mm(v: i64) -> f64 {
    v as f64 / 10000.0
}

// ── positions ──────────────────────────────────────────

#[test]
fn test_pos_no_rotation() {
    let sch = parse_schematic(&make_sch(0.0, false, false, "U1")).unwrap();
    let p = sch.pin_abs_position("U1", "A").unwrap();
    assert!((mm(p.x) - 94.92).abs() < 0.01, "x={}", mm(p.x));
    assert!((mm(p.y) - 50.00).abs() < 0.01, "y={}", mm(p.y));
}

#[test]
fn test_pos_90deg() {
    let sch = parse_schematic(&make_sch(90.0, false, false, "U1")).unwrap();
    let p = sch.pin_abs_position("U1", "A").unwrap();
    assert!((mm(p.x) - 100.00).abs() < 0.01, "x={}", mm(p.x));
    assert!((mm(p.y) - 55.08).abs() < 0.01, "y={}", mm(p.y));
}

#[test]
fn test_pos_180deg() {
    let sch = parse_schematic(&make_sch(180.0, false, false, "U1")).unwrap();
    let p = sch.pin_abs_position("U1", "A").unwrap();
    assert!((mm(p.x) - 105.08).abs() < 0.01, "x={}", mm(p.x));
    assert!((mm(p.y) - 50.00).abs() < 0.01, "y={}", mm(p.y));
}

#[test]
fn test_pos_270deg() {
    let sch = parse_schematic(&make_sch(270.0, false, false, "U1")).unwrap();
    let p = sch.pin_abs_position("U1", "A").unwrap();
    assert!((mm(p.x) - 100.00).abs() < 0.01, "x={}", mm(p.x));
    assert!((mm(p.y) - 44.92).abs() < 0.01, "y={}", mm(p.y));
}

#[test]
fn test_pos_mirror_x() {
    let sch = parse_schematic(&make_sch(0.0, true, false, "U1")).unwrap();
    let p = sch.pin_abs_position("U1", "A").unwrap();
    assert!((mm(p.x) - 94.92).abs() < 0.01, "x={}", mm(p.x));
    assert!((mm(p.y) - 50.00).abs() < 0.01, "y={}", mm(p.y));
}

// ── directions ──────────────────────────────────────────

#[test]
fn test_dir_no_rotation_a() {
    let sch = parse_schematic(&make_sch(0.0, false, false, "U1")).unwrap();
    assert_eq!(sch.pin_out_direction("U1", "A").unwrap(), PinOutDir::Left);
}

#[test]
fn test_dir_no_rotation_b() {
    let sch = parse_schematic(&make_sch(0.0, false, false, "U1")).unwrap();
    assert_eq!(sch.pin_out_direction("U1", "B").unwrap(), PinOutDir::Down);
}

#[test]
fn test_dir_90deg_a() {
    let sch = parse_schematic(&make_sch(90.0, false, false, "U1")).unwrap();
    assert_eq!(sch.pin_out_direction("U1", "A").unwrap(), PinOutDir::Down);
}

#[test]
fn test_dir_90deg_b() {
    let sch = parse_schematic(&make_sch(90.0, false, false, "U1")).unwrap();
    assert_eq!(sch.pin_out_direction("U1", "B").unwrap(), PinOutDir::Right);
}

#[test]
fn test_dir_180deg_a() {
    let sch = parse_schematic(&make_sch(180.0, false, false, "U1")).unwrap();
    assert_eq!(sch.pin_out_direction("U1", "A").unwrap(), PinOutDir::Right);
}

#[test]
fn test_dir_270deg_a() {
    let sch = parse_schematic(&make_sch(270.0, false, false, "U1")).unwrap();
    assert_eq!(sch.pin_out_direction("U1", "A").unwrap(), PinOutDir::Up);
}

#[test]
fn test_dir_mirror_x_a() {
    let sch = parse_schematic(&make_sch(0.0, true, false, "U1")).unwrap();
    assert_eq!(sch.pin_out_direction("U1", "A").unwrap(), PinOutDir::Left);
}

#[test]
fn test_dir_mirror_x_90deg_a() {
    let sch = parse_schematic(&make_sch(90.0, true, false, "U1")).unwrap();
    assert_eq!(sch.pin_out_direction("U1", "A").unwrap(), PinOutDir::Down);
}

// ── pin_name_to_format ───────────────────────────

#[test]
fn test_fmt_simple() {
    assert_eq!(pin_name_to_format("A0"), Some("A%d".into()));
}

#[test]
fn test_fmt_underscore() {
    assert_eq!(pin_name_to_format("A_0"), Some("A_%d".into()));
}

#[test]
fn test_fmt_braces() {
    assert_eq!(pin_name_to_format("A_{0}"), Some("A_{%d}".into()));
}

#[test]
fn test_fmt_none() {
    assert_eq!(pin_name_to_format("VCC"), None);
}

// ── resolve_pin_names ────────────────────────────

const RESOLVE_SCH: &str = r#"
(kicad_sch (version 20231120) (generator "eeschema") (uuid "root")
  (lib_symbols
    (symbol "Test:IC"
      (in_bom yes) (on_board yes)
      (symbol "IC_0_1"
        (pin input line (at -5.08  5.08 0) (length 2.54)
          (name "A_{0}" (effects (font (size 1.27 1.27)))) (number "1" (effects (font (size 1.27 1.27)))))
        (pin input line (at -5.08  2.54 0) (length 2.54)
          (name "A_{1}" (effects (font (size 1.27 1.27)))) (number "2" (effects (font (size 1.27 1.27)))))
        (pin input line (at -5.08  0.00 0) (length 2.54)
          (name "A_{2}" (effects (font (size 1.27 1.27)))) (number "3" (effects (font (size 1.27 1.27)))))
        (pin input line (at -5.08 -2.54 0) (length 2.54)
          (name "A_0"   (effects (font (size 1.27 1.27)))) (number "4" (effects (font (size 1.27 1.27)))))
        (pin input line (at -5.08 -5.08 0) (length 2.54)
          (name "A_1"   (effects (font (size 1.27 1.27)))) (number "5" (effects (font (size 1.27 1.27)))))
      )
    )
  )
  (symbol (lib_id "Test:IC") (at 100.0 50.0 0)
    (in_bom yes) (on_board yes) (uuid "s1")
    (instances (project "t" (path "/root" (reference "U1") (unit 1))))
  )
)
"#;

#[test]
fn test_resolve_brace() {
    let sch = parse_schematic(RESOLVE_SCH).unwrap();
    let names = sch.resolve_pin_names("U1", "A_{%d}", 0, 2).unwrap();
    assert_eq!(names, vec!["A_{0}", "A_{1}", "A_{2}"]);
}

#[test]
fn test_resolve_underscore() {
    let sch = parse_schematic(RESOLVE_SCH).unwrap();
    let names = sch.resolve_pin_names("U1", "A_%d", 0, 1).unwrap();
    assert_eq!(names, vec!["A_0", "A_1"]);
}

#[test]
fn test_resolve_reverse() {
    let sch = parse_schematic(RESOLVE_SCH).unwrap();
    let names = sch.resolve_pin_names("U1", "A_{%d}", 2, 0).unwrap();
    assert_eq!(names, vec!["A_{2}", "A_{1}", "A_{0}"]);
}

#[test]
fn test_resolve_missing_percent_d() {
    let sch = parse_schematic(RESOLVE_SCH).unwrap();
    let err = sch.resolve_pin_names("U1", "A_", 0, 1).unwrap_err();
    assert!(err.contains("%d"), "error should mention %d: {}", err);
}

#[test]
fn test_resolve_pin_not_found() {
    let sch = parse_schematic(RESOLVE_SCH).unwrap();
    // A_{3} does not exist
    let err = sch.resolve_pin_names("U1", "A_{%d}", 0, 3).unwrap_err();
    assert!(
        err.contains("A_{3}"),
        "error should mention A_{{3}}: {}",
        err
    );
}

#[test]
fn test_pin_prefixes_for() {
    let sch = parse_schematic(RESOLVE_SCH).unwrap();
    let fmts = sch.pin_prefixes_for("U1");
    assert!(fmts.contains(&"A_{%d}".to_string()), "got {:?}", fmts);
    assert!(fmts.contains(&"A_%d".to_string()), "got {:?}", fmts);
}

#[test]
fn test_first_pin_name() {
    assert_eq!(Schematic::first_pin_name("A%d", 0), "A0");
    assert_eq!(Schematic::first_pin_name("A_%d", 0), "A_0");
    assert_eq!(Schematic::first_pin_name("A_{%d}", 0), "A_{0}");
    assert_eq!(Schematic::first_pin_name("A_{%d}", 14), "A_{14}");
}

#[test]
fn test_each_pin_unique_position() {
    let sch = parse_schematic(RESOLVE_SCH).unwrap();
    let p0 = sch.pin_abs_position("U1", "A_{0}").unwrap();
    let p1 = sch.pin_abs_position("U1", "A_{1}").unwrap();
    let p2 = sch.pin_abs_position("U1", "A_{2}").unwrap();
    assert!(
        (mm(p0.y) - mm(p1.y)).abs() > 0.01,
        "A_{{0}} and A_{{1}} should differ in Y"
    );
    assert!(
        (mm(p1.y) - mm(p2.y)).abs() > 0.01,
        "A_{{1}} and A_{{2}} should differ in Y"
    );
    assert!(
        (mm(p0.x) - mm(p1.x)).abs() < 0.01,
        "X should be same for left-facing pins"
    );
}
