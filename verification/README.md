# kicad_bus_gen

Bus wiring for KiCad schematics: reads a `.kicad_sch` file, locates symbol
pins on the sheet (rotation and mirroring applied), and appends a bus
entry, a wire and a net label for each pin of a bus group. The logic is a
library verified with Verus; the command-line tool and the terminal editor
around it are plain Rust.

## Layout

- `src/` — the verified library
  - `text.rs` — digits, decimal text, `f64` text read as fixed point,
    substring search and replacement
  - `order.rs` — sorted lists of strings without repeats
  - `sexpr.rs` — the tokenizer and S-expression parser
  - `parser.rs` — the schematic model, pin name formats, pin positions and
    directions
  - `generator.rs` — layouts, the text of the elements, and the appended
    schematic
  - `tui.rs` — the bus table: rows, the cursor, key handling, validation
    and suggestions
  - `session.rs` — the saved rows and the session file's path
  - `properties.rs` — laws relating several operations
- `app/` — `main`, the terminal front end (ratatui, crossterm) and the
  session file (serde_json)
- `tests/` — tests of the library

## Numbers

Lengths are held as integers in units of 0.1 µm and angles in units of
0.0001°. Numbers in the file are read as `f64::from_str` reads them (signs,
exponents) and rounded to that resolution; a symbol's angle is truncated
instead, so that its whole degrees are those of the `f64` value. A number
that is `inf` or `nan` or does not fit reads as 0. In the table, a Wire
that cannot be held as a length is reported by validation, so every row
that validates becomes a bus group.
