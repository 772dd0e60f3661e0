use vstd::prelude::*;

use crate::authorship_log::AuthorshipLog;

verus! {

/// A CI event to process.
#[derive(Debug, Clone, PartialEq, Eq)]
pub enum CiEvent {
    Merge {
        merge_commit_sha: String,
        head_ref: String,
        head_sha: String,
        base_ref: String,
        base_sha: String,
    },
}

/// Outcome of a CI run.
#[derive(Debug)]
pub enum CiRunResult {
    /// Authorship was rewritten for a squash or rebase merge.
    AuthorshipRewritten { authorship_log: AuthorshipLog },
    /// A merge commit with several parents already carries its authorship.
    SkippedSimpleMerge,
    /// The merge commit is the head itself.
    SkippedFastForward,
    /// The merge commit already has an authorship log.
    AlreadyExists { authorship_log: AuthorshipLog },
    /// No AI authorship to carry.
    NoAuthorshipAvailable,
}

/// What a CI run does next for a merge commit.
#[derive(Debug, Clone, Copy, PartialEq, Eq, Structural)]
pub enum CiStep {
    /// Report the existing log.
    UseExisting,
    /// Skip: a simple merge.
    SkipSimpleMerge,
    /// Skip: a fast-forward.
    SkipFastForward,
    /// Fetch the base branch and notes, then replay the rewrite.
    Rewrite,
}

/// The next step for a merge commit, given whether it already has an
/// authorship log and how many parents it has.
pub fn merge_step(
    event: &CiEvent,
    has_authorship: bool,
    parent_count: usize,
) -> (r: CiStep)
    ensures
        r == if has_authorship {
            CiStep::UseExisting
        } else if parent_count > 1 {
            CiStep::SkipSimpleMerge
        } else if match *event {
            CiEvent::Merge { merge_commit_sha, head_sha, .. } => merge_commit_sha@ == head_sha@,
        } {
            CiStep::SkipFastForward
        } else {
            CiStep::Rewrite
        },
{
    if has_authorship {
        return CiStep::UseExisting;
    }
    if parent_count > 1 {
        return CiStep::SkipSimpleMerge;
    }
    match event {
        CiEvent::Merge { merge_commit_sha, head_sha, .. } => {
            if crate::text::str_eq(merge_commit_sha.as_str(), head_sha.as_str()) {
                CiStep::SkipFastForward
            } else {
                CiStep::Rewrite
            }
        },
    }
}

/// The result after a rewrite: the log written for the merge commit, if any.
pub fn result_after_rewrite(log: Option<AuthorshipLog>) -> (r: CiRunResult)
    ensures
        match log {
            Some(l) => r matches CiRunResult::AuthorshipRewritten { authorship_log } && authorship_log == l,
            None => r matches CiRunResult::NoAuthorshipAvailable,
        },
{
    match log {
        Some(authorship_log) => CiRunResult::AuthorshipRewritten { authorship_log },
        None => CiRunResult::NoAuthorshipAvailable,
    }
}

} // verus!
