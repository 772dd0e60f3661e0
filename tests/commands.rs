use git_ai::authorship_log::{AttestationEntry, AuthorshipLog, FileAttestation};
use git_ai::line_range::LineRange;
use git_ai::ci::{merge_step, result_after_rewrite, CiEvent, CiRunResult, CiStep};
use git_ai::rewrite::{rewrite_authorship_if_needed, RewriteAction, RewriteLogEvent};
use git_ai::sync_prompts::ImportStats;

fn args(v: &[&str]) -> Vec<String> {
    v.iter().map(|s| s.to_string()).collect()
}

#[test]
fn share_args() {
    let p = git_ai::share::parse_args(&args(&["abc", "--title", "My title"])).unwrap();
    assert_eq!(p.prompt_id, "abc");
    assert_eq!(p.title, Some("My title".to_string()));
    assert!(git_ai::share::parse_args(&args(&[])).is_err());
    assert!(git_ai::share::parse_args(&args(&["a", "b"])).is_err());
    assert!(git_ai::share::parse_args(&args(&["a", "--title"])).is_err());
    assert_eq!(git_ai::share::parse_args(&args(&["-x"])).unwrap_err(), "Unknown option: -x");
    assert_eq!(git_ai::share::parse_args(&args(&["--title"])).unwrap_err(), "--title requires a value");
    assert_eq!(git_ai::share::parse_args(&args(&[])).unwrap_err(), "share requires a prompt ID");
    assert_eq!(git_ai::share::parse_args(&args(&["a", "b"])).unwrap_err(), "Only one prompt ID can be specified");
    assert_eq!(git_ai::rewrite::stash_apply_step("h", "h"), git_ai::rewrite::StashStep::KeepWorkingLog);
    assert_eq!(git_ai::rewrite::stash_apply_step("h", "g"), git_ai::rewrite::StashStep::Reconstruct);
}

#[test]
fn show_prompt_args() {
    let p = git_ai::show_prompt::parse_args(&args(&["abc", "--offset", "3"])).unwrap();
    assert_eq!((p.prompt_id.as_str(), p.commit.clone(), p.offset), ("abc", None, 3));
    let p = git_ai::show_prompt::parse_args(&args(&["--commit", "HEAD~1", "abc"])).unwrap();
    assert_eq!(p.commit, Some("HEAD~1".to_string()));
    assert_eq!(p.offset, 0);
    assert!(git_ai::show_prompt::parse_args(&args(&["abc", "--commit", "x", "--offset", "1"])).is_err());
    assert!(git_ai::show_prompt::parse_args(&args(&["abc", "--offset", "-1"])).is_err());
    assert!(git_ai::show_prompt::parse_args(&args(&["abc", "--offset"])).is_err());
}

#[test]
fn ci_merge_steps() {
    let event = CiEvent::Merge {
        merge_commit_sha: "m".to_string(),
        head_ref: "feature".to_string(),
        head_sha: "h".to_string(),
        base_ref: "main".to_string(),
        base_sha: "b".to_string(),
    };
    assert_eq!(merge_step(&event, true, 2), CiStep::UseExisting);
    assert_eq!(merge_step(&event, false, 2), CiStep::SkipSimpleMerge);
    assert_eq!(merge_step(&event, false, 1), CiStep::Rewrite);
    let ff = CiEvent::Merge {
        merge_commit_sha: "h".to_string(),
        head_ref: "feature".to_string(),
        head_sha: "h".to_string(),
        base_ref: "main".to_string(),
        base_sha: "b".to_string(),
    };
    assert_eq!(merge_step(&ff, false, 1), CiStep::SkipFastForward);
    assert!(matches!(result_after_rewrite(None), CiRunResult::NoAuthorshipAvailable));
}

#[test]
fn rewrite_events_pick_their_driver() {
    let e = RewriteLogEvent::RebaseComplete {
        original_head: "o".to_string(),
        original_commits: vec!["a".to_string()],
        new_commits: vec!["b".to_string(), "c".to_string()],
    };
    assert_eq!(
        rewrite_authorship_if_needed(&e),
        Some(RewriteAction::Rebase {
            original_head: "o".to_string(),
            original_commits: vec!["a".to_string()],
            new_commits: vec!["b".to_string(), "c".to_string()],
        })
    );
    let e = RewriteLogEvent::CommitAmend { original_commit: "x".to_string(), amended_commit_sha: "y".to_string() };
    assert_eq!(
        rewrite_authorship_if_needed(&e),
        Some(RewriteAction::Amend { original_commit: "x".to_string(), amended_commit_sha: "y".to_string() })
    );
    assert_eq!(rewrite_authorship_if_needed(&RewriteLogEvent::StashPop { stash_sha: "s".to_string() }), None);
    let stats = ImportStats::default();
    assert_eq!(stats.imported + stats.failed, 0);
}

#[test]
fn identical_trees_keep_the_log() {
    assert!(git_ai::rewrite::trees_identical("t1", "t1"));
    assert!(!git_ai::rewrite::trees_identical("t1", "t2"));
    let mut log = AuthorshipLog::new();
    log.metadata.base_commit_sha = "old".to_string();
    let mut f = FileAttestation::new("f".to_string());
    f.add_entry(AttestationEntry::new("h".to_string(), vec![LineRange::Single(1)]));
    log.attestations.push(f.clone());
    let copied = git_ai::rewrite::copy_authorship_log(log, "new");
    assert_eq!(copied.attestations, vec![f]);
    assert_eq!(copied.metadata.base_commit_sha, "new");
}
