use vstd::prelude::*;

use crate::authorship_log::AuthorshipLog;

verus! {

/// A history-changing event recorded in the rewrite log.
#[derive(Debug, Clone, PartialEq, Eq)]
pub enum RewriteLogEvent {
    Commit { base_commit: Option<String>, commit_sha: String },
    CommitAmend { original_commit: String, amended_commit_sha: String },
    MergeSquash {
        source_branch: String,
        source_head: String,
        base_branch: String,
        base_head: String,
    },
    RebaseComplete { original_head: String, original_commits: Vec<String>, new_commits: Vec<String> },
    CherryPickComplete { source_commits: Vec<String>, new_commits: Vec<String> },
    StashCreate { stash_sha: String },
    StashApply { stash_sha: String },
    StashPop { stash_sha: String },
}

/// The rewrite driver to run for an event.
#[derive(Debug, Clone, PartialEq, Eq)]
pub enum RewriteAction {
    /// Write the authorship log of a new commit from its working log.
    PostCommit { base_commit: Option<String>, commit_sha: String },
    /// Move authorship from the amended commit to its replacement.
    Amend { original_commit: String, amended_commit_sha: String },
    /// Drop the base's working log and seed it from the squashed branch.
    PrepareSquash { source_head: String, base_head: String },
    /// Carry authorship across a rebase.
    Rebase { original_head: String, original_commits: Vec<String>, new_commits: Vec<String> },
    /// Carry authorship across a cherry-pick.
    CherryPick { source_commits: Vec<String>, new_commits: Vec<String> },
}

pub open spec fn views(v: Seq<String>) -> Seq<Seq<char>> {
    v.map_values(|s: String| s@)
}

fn copy_strings(v: &Vec<String>) -> (r: Vec<String>)
    ensures
        r@ == v@,
{
    let mut out: Vec<String> = Vec::new();
    let mut i: usize = 0;
    while i < v.len()
        invariant
            0 <= i <= v@.len(),
            out@ == v@.subrange(0, i as int),
        decreases v@.len() - i,
    {
        out.push(v[i].clone());
        i = i + 1;
        assert(out@ =~= v@.subrange(0, i as int));
    }
    out
}

/// Which driver the last rewrite-log event calls for: commits, amends,
/// squash merges, rebases and cherry-picks each have one; stash events
/// are handled by the stash hooks.
pub fn rewrite_authorship_if_needed(last_event: &RewriteLogEvent) -> (r: Option<RewriteAction>)
    ensures
        match *last_event {
            RewriteLogEvent::Commit { base_commit, commit_sha } => r matches Some(
                RewriteAction::PostCommit { base_commit: b, commit_sha: c },
            ) && b == base_commit && c == commit_sha,
            RewriteLogEvent::CommitAmend { original_commit, amended_commit_sha } => r matches Some(
                RewriteAction::Amend { original_commit: o, amended_commit_sha: a },
            ) && o == original_commit && a == amended_commit_sha,
            RewriteLogEvent::MergeSquash { source_head, base_head, .. } => r matches Some(
                RewriteAction::PrepareSquash { source_head: s, base_head: b },
            ) && s == source_head && b == base_head,
            RewriteLogEvent::RebaseComplete { original_head, original_commits, new_commits } => r matches Some(
                RewriteAction::Rebase { original_head: h, original_commits: o, new_commits: n },
            ) && h == original_head && o@ == original_commits@ && n@ == new_commits@,
            RewriteLogEvent::CherryPickComplete { source_commits, new_commits } => r matches Some(
                RewriteAction::CherryPick { source_commits: s, new_commits: n },
            ) && s@ == source_commits@ && n@ == new_commits@,
            _ => r is None,
        },
{
    match last_event {
        RewriteLogEvent::Commit { base_commit, commit_sha } => Some(
            RewriteAction::PostCommit {
                base_commit: match base_commit {
                    Some(b) => Some(b.clone()),
                    None => None,
                },
                commit_sha: commit_sha.clone(),
            },
        ),
        RewriteLogEvent::CommitAmend { original_commit, amended_commit_sha } => Some(
            RewriteAction::Amend {
                original_commit: original_commit.clone(),
                amended_commit_sha: amended_commit_sha.clone(),
            },
        ),
        RewriteLogEvent::MergeSquash { source_head, base_head, .. } => Some(
            RewriteAction::PrepareSquash { source_head: source_head.clone(), base_head: base_head.clone() },
        ),
        RewriteLogEvent::RebaseComplete { original_head, original_commits, new_commits } => Some(
            RewriteAction::Rebase {
                original_head: original_head.clone(),
                original_commits: copy_strings(original_commits),
                new_commits: copy_strings(new_commits),
            },
        ),
        RewriteLogEvent::CherryPickComplete { source_commits, new_commits } => Some(
            RewriteAction::CherryPick {
                source_commits: copy_strings(source_commits),
                new_commits: copy_strings(new_commits),
            },
        ),
        _ => None,
    }
}


/// Whether two commits have the same tree, by tree id.
pub fn trees_identical(tree1: &str, tree2: &str) -> (r: bool)
    ensures
        r == (tree1@ == tree2@),
{
    crate::text::str_eq(tree1, tree2)
}

/// The log of a commit carried to a commit with the same tree: the same
/// attestations and prompt records, bound to the new commit.
pub fn copy_authorship_log(log: AuthorshipLog, to_sha: &str) -> (r: AuthorshipLog)
    ensures
        r.attestations == log.attestations,
        r.metadata.prompts == log.metadata.prompts,
        r.metadata.schema_version == log.metadata.schema_version,
        r.metadata.base_commit_sha@ == to_sha@,
{
    let mut log = log;
    log.metadata.base_commit_sha = to_sha.to_string();
    log
}


/// What applying a stash does to authorship.
#[derive(Debug, Clone, Copy, PartialEq, Eq, Structural)]
pub enum StashStep {
    /// The stash was made on the current head: the working log is right.
    KeepWorkingLog,
    /// The stash moves to another head: rebuild the working log there.
    Reconstruct,
}

/// The step for applying a stash made at `original_head` onto `target_head`.
pub fn stash_apply_step(original_head: &str, target_head: &str) -> (r: StashStep)
    ensures
        r == if original_head@ == target_head@ {
            StashStep::KeepWorkingLog
        } else {
            StashStep::Reconstruct
        },
{
    if crate::text::str_eq(original_head, target_head) {
        StashStep::KeepWorkingLog
    } else {
        StashStep::Reconstruct
    }
}

} // verus!
