//! The error values that a run of the tool can end with.

use vstd::prelude::*;

verus! {

/// Every failure the core logic can report.
///
/// - `UnsupportedExtension`: a source or target path whose extension is
///   neither `txt` nor `csv` (or that has no extension at all).
/// - `MalformedRecord`: CSV input that cannot be parsed, a CSV row with
///   fewer columns than the selected column index requires, or a CSV
///   source that lacks the header row a header selector asks for.
#[derive(Clone, Copy, Debug, PartialEq, Eq, Structural)]
pub enum DffError {
    UnsupportedExtension,
    MalformedRecord,
}

} // verus!
