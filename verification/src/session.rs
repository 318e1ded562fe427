//! The saved session: the rows of the last run, kept beside the schematic
//! in `<schematic>.bus_gen.json`. The command reads and writes the file.

use vstd::prelude::*;

verus! {

/// One saved row.
#[derive(Clone, Debug)]
pub struct SavedRow {
    pub reference: String,
    pub pin_prefix: String,
    pub prefix: String,
    pub start: i32,
    pub end: i32,
    /// The wire length, in units of 0.1 µm.
    pub wire_len: i64,
}

/// What `Path::with_extension` gives: the path with the extension of its
/// file name replaced by `ext` (or `ext` added where there is none), as
/// text.
pub uninterp spec fn path_with_extension(path: Seq<char>, ext: Seq<char>) -> Seq<char>;

/// `Path::new(path).with_extension(ext)`, as text. `with_extension` panics
/// when `ext` holds a path separator (`/`, and a backslash on Windows), so
/// such an extension is left out.
#[verifier::external_body]
fn with_extension(path: &str, ext: &str) -> (r: String)
    requires
        !ext@.contains('/'),
        !ext@.contains('\\'),
    ensures
        r@ == path_with_extension(path@, ext@),
{
    std::path::Path::new(path).with_extension(ext).to_string_lossy().into_owned()
}

/// The session file of a schematic: its path with the extension
/// `bus_gen.json`.
pub fn session_path(sch_path: &str) -> (r: String)
    ensures
        r@ == path_with_extension(sch_path@, "bus_gen.json"@),
{
    proof {
        reveal_strlit("bus_gen.json");
    }
    with_extension(sch_path, "bus_gen.json")
}

} // verus!
