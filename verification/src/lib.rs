//! Snippet extraction from annotated text files.
//!
//! A source file may carry directive comments (`+IN label`, `-IN label`,
//! `+OUT`, `-OUT`, `+EXC`, `-EXC`, `+VAR`, `+HEADER`, `+EXCSUBST` and their
//! closers) that mark labeled extracts, suppressed regions, exercise-only
//! regions and text substitutions.  The parser turns the ordered lines of
//! one file into a registry of labeled output buffers, or a parse error.

use vstd::prelude::*;

pub mod file;
pub mod laws;
pub mod parser;
pub mod text;
pub mod tokenizer;
pub mod util;

verus! {

/// Reserved sentinel label under which the whole, stripped file is collected.
pub const DEFAULTLABEL: &'static str = "x8gfz4hd";

/// The sentinel label as the specification sees it.
pub open spec fn default_label() -> Seq<char> {
    "x8gfz4hd"@
}

} // verus!
