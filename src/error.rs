use vstd::prelude::*;

verus! {

/// Errors of the attribution engine.
#[derive(Debug, Clone, PartialEq, Eq)]
pub enum GitAiError {
    /// A failure described by its message.
    Generic(String),
    /// A requested blob, tree, commit or note is absent.
    Missing(String),
    /// Text that does not follow the expected format.
    BadFormat(String),
    /// Sizes or indices that should agree do not.
    Mismatch(String),
}

} // verus!
