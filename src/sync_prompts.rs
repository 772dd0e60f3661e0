use vstd::prelude::*;

verus! {

/// Counts of an import of discovered conversations.
#[derive(Debug, Clone, Copy, PartialEq, Eq, Default)]
pub struct ImportStats {
    /// Newly imported conversations.
    pub imported: usize,
    /// Skipped because already stored.
    pub already_exists: usize,
    /// Skipped for an empty or invalid transcript.
    pub skipped: usize,
    /// Could not be fetched or parsed.
    pub failed: usize,
}

} // verus!
