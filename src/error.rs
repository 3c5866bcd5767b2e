//! The ways a search can fail.

use vstd::prelude::*;

verus! {

/// Why a search could not be carried out.
#[derive(Debug, Clone, Copy, PartialEq, Eq, Structural)]
pub enum GrepError {
    /// Fewer arguments than a file name and a pattern; `supplied` counts the
    /// arguments after the program name.
    Usage { supplied: usize },
    /// The file could not be read as text.
    FileRead,
    /// The span found in the case-folded copy of line `line` does not fall on
    /// character boundaries of the original line, so it cannot be shown there.
    Misaligned { line: usize },
}

} // verus!
