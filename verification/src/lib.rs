//! Bus wiring for KiCad schematics: reading `.kicad_sch` files, locating
//! symbol pins, and laying out bus entries, wires and net labels.

pub mod text;
pub mod order;
pub mod sexpr;
pub mod parser;
pub mod tui;
pub mod generator;
pub mod session;
pub mod properties;
