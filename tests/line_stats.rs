use git_ai::authorship_log::{AttestationEntry, AuthorshipLog, FileAttestation, PromptRecord, AgentId};
use git_ai::line_range::LineRange;
use git_ai::line_stats::{
    add_line_counts, add_overrides, collect_overridden_lines, count_line_changes, count_new_overrides,
    line_change_counts,
};
use git_ai::str_map::StrMap;
use git_ai::working_log::{CheckpointKind, CheckpointLineStats, LineAttribution};

fn la(start: u32, end: u32, overridden: bool) -> LineAttribution {
    LineAttribution::new(start, end, "h".to_string(), overridden)
}

#[test]
fn overridden_lines_are_collected_as_ranges() {
    let las = vec![la(1, 2, true), la(3, 3, false), la(3, 5, true), la(9, 8, true), la(10, 10, true)];
    assert_eq!(collect_overridden_lines(&las), vec![LineRange::Range(1, 5), LineRange::Single(10)]);
}

#[test]
fn overrides_count_only_new_lines() {
    let previous = vec![la(1, 2, true), la(3, 4, false)];
    let current = vec![la(1, 3, true), la(7, 7, true)];
    assert_eq!(count_new_overrides(&current, &previous), 2);
    assert_eq!(count_new_overrides(&previous, &previous), 0);
    assert_eq!(count_new_overrides(&current, &[]), 4);
}

#[test]
fn override_totals_never_decrease() {
    let stats = CheckpointLineStats {
        human_additions: 1,
        human_deletions: 2,
        ai_agent_additions: 3,
        ai_agent_deletions: 4,
        ai_tab_additions: 5,
        ai_tab_deletions: 6,
        overrides: 7,
    };
    let next = add_overrides(&stats, 2);
    assert_eq!(next.overrides, 9);
    assert_eq!(next.human_deletions, 2);
    let capped = add_overrides(&next, u64::MAX);
    assert_eq!(capped.overrides, u32::MAX);
    assert_eq!(add_overrides(&capped, 5).overrides, u32::MAX);
}

#[test]
fn finalize_keeps_every_hash_covered() {
    let record = PromptRecord {
        agent_id: AgentId { tool: "t".to_string(), id: "i".to_string(), model: "m".to_string() },
        human_author: None,
        messages: vec![],
        total_additions: 0,
        total_deletions: 0,
        accepted_lines: 0,
        overriden_lines: 0,
    };
    let mut log = AuthorshipLog::new();
    log.metadata.prompts.insert("k1".to_string(), record.clone());
    log.metadata.prompts.insert("k2".to_string(), record);
    let mut f = FileAttestation::new("x".to_string());
    f.add_entry(AttestationEntry::new("k2".to_string(), vec![LineRange::Range(1, 4)]));
    f.add_entry(AttestationEntry::new("k1".to_string(), vec![LineRange::Single(9)]));
    log.attestations.push(f);
    log.finalize(&StrMap::new(), &StrMap::new());
    let mut total = 0u32;
    for file in &log.attestations {
        for entry in &file.entries {
            assert!(log.metadata.prompts.contains_key(&entry.hash));
            for r in &entry.line_ranges {
                total += r.expand().len() as u32;
            }
        }
    }
    let accepted: u32 = (0..log.metadata.prompts.len()).map(|i| log.metadata.prompts.value_at(i).accepted_lines).sum();
    assert_eq!(accepted, total);
    assert_eq!(total, 5);
}

#[test]
fn line_changes_count_only_lines_with_text() {
    assert_eq!(line_change_counts("a\nb\n", "a\nc\n  \nd\n"), (2, 1));
    assert_eq!(line_change_counts("same\n", "same\n"), (0, 0));
    assert_eq!(line_change_counts("", "x\n\n"), (1, 0));
    let changes = vec![(2u8, " \t\n".to_string()), (2u8, "x".to_string()), (1u8, "y\n".to_string()), (0u8, "z\n".to_string())];
    assert_eq!(count_line_changes(&changes), (1, 1));
    let stats = CheckpointLineStats {
        human_additions: 1,
        human_deletions: 1,
        ai_agent_additions: 0,
        ai_agent_deletions: 0,
        ai_tab_additions: 0,
        ai_tab_deletions: 0,
        overrides: 3,
    };
    let next = add_line_counts(&stats, CheckpointKind::AiAgent, 5, 2);
    assert_eq!((next.ai_agent_additions, next.ai_agent_deletions, next.human_additions, next.overrides), (5, 2, 1, 3));
    let full = add_line_counts(&next, CheckpointKind::Human, u32::MAX, 0);
    assert_eq!(full.human_additions, u32::MAX);
}

#[test]
fn line_stats_of_a_checkpoint() {
    use_compute();
}

fn use_compute() {
    let entry = git_ai::working_log::WorkingLogEntry {
        file: "f.rs".to_string(),
        blob_sha: String::new(),
        attributions: vec![],
        line_attributions: vec![la(2, 3, true)],
    };
    let mut state = StrMap::new();
    state.insert("f.rs".to_string(), vec![la(3, 3, true)]);
    let contents = vec![("a\n".to_string(), "a\nb\n\n".to_string()), ("x\ny\n".to_string(), "y\n".to_string())];
    let stats = git_ai::line_stats::compute_line_stats(None, CheckpointKind::AiAgent, &contents, &[entry.clone()], &state);
    assert_eq!((stats.ai_agent_additions, stats.ai_agent_deletions, stats.overrides), (1, 1, 1));
    assert_eq!(stats.human_additions, 0);
    let again = git_ai::line_stats::compute_line_stats(Some(&stats), CheckpointKind::Human, &[], &[entry], &StrMap::new());
    assert_eq!((again.ai_agent_additions, again.overrides), (1, 3));
}

#[test]
fn previous_state_holds_each_files_latest_attributions() {
    let entry = |file: &str, las: Vec<LineAttribution>| git_ai::working_log::WorkingLogEntry {
        file: file.to_string(),
        blob_sha: String::new(),
        attributions: vec![],
        line_attributions: las,
    };
    let base = CheckpointLineStats {
        human_additions: 0,
        human_deletions: 0,
        ai_agent_additions: 0,
        ai_agent_deletions: 0,
        ai_tab_additions: 0,
        ai_tab_deletions: 0,
        overrides: 0,
    };
    let cp = |entries: Vec<git_ai::working_log::WorkingLogEntry>| git_ai::working_log::Checkpoint {
        kind: CheckpointKind::Human,
        diff: String::new(),
        author: String::new(),
        entries,
        timestamp: 0,
        transcript: None,
        agent_id: None,
        line_stats: base,
        api_version: String::new(),
    };
    let cps = vec![
        cp(vec![entry("a", vec![la(1, 1, false)]), entry("b", vec![la(2, 2, true)])]),
        cp(vec![entry("a", vec![la(5, 6, true)])]),
    ];
    let state = git_ai::line_stats::previous_file_state(&cps);
    assert_eq!(state.len(), 2);
    assert_eq!(state.get("a").unwrap(), &vec![la(5, 6, true)]);
    assert_eq!(state.get("b").unwrap(), &vec![la(2, 2, true)]);
}
