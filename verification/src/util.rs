//! Configuration for one snippet run.

use vstd::prelude::*;

verus! {

/// The settings for a snippet run.
///
/// The parser itself reads only `comment` (the accepted comment-escape
/// markers, at least one) and `exercise_solution` (whether the solution
/// variant is emitted); the remaining fields steer the surrounding
/// directory scan and file output.
pub struct Setting {
    /// Directory with source files.
    pub src_dir: String,
    /// Directory where snippet files will be stored.
    pub snippet_dest_dir: String,
    /// Directory where stripped source files will be stored.
    pub src_dest_dir: String,
    /// One or more file suffixes of files to process.
    pub file_suffix: Vec<String>,
    /// One or more escape comment symbols, e.g. `#` or `//`.
    pub comment: Vec<String>,
    /// Include solutions (EXC and EXCSUBST flags).
    pub exercise_solution: bool,
    /// Force (re-)generation of all snippets.
    pub force_update: bool,
    /// Copy also all other files to `src_dest_dir`.
    pub copy_other_files: bool,
    /// Message verbosity.
    pub verbosity: u8,
}

impl Setting {
    /// The comment-escape markers, as the parser's specification sees them.
    pub open spec fn markers(&self) -> Seq<Seq<char>> {
        crate::text::string_views(self.comment@)
    }
}

} // verus!
