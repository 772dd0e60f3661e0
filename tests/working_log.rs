use git_ai::str_map::StrMap;
use git_ai::working_log::{
    initial_to_write, keep_compatible, Checkpoint, CheckpointKind, CheckpointLineStats,
    InitialAttributions, LineAttribution, CHECKPOINT_API_VERSION,
};

fn checkpoint(version: &str, author: &str) -> Checkpoint {
    Checkpoint {
        kind: CheckpointKind::Human,
        diff: String::new(),
        author: author.to_string(),
        entries: vec![],
        timestamp: 0,
        transcript: None,
        agent_id: None,
        line_stats: CheckpointLineStats {
            human_additions: 0,
            human_deletions: 0,
            ai_agent_additions: 0,
            ai_agent_deletions: 0,
            ai_tab_additions: 0,
            ai_tab_deletions: 0,
            overrides: 0,
        },
        api_version: version.to_string(),
    }
}

#[test]
fn incompatible_checkpoints_are_skipped() {
    let all = vec![
        checkpoint(CHECKPOINT_API_VERSION, "a"),
        checkpoint("checkpoint/0.9.0", "b"),
        checkpoint(CHECKPOINT_API_VERSION, "c"),
    ];
    let kept = keep_compatible(all);
    let authors: Vec<&str> = kept.iter().map(|c| c.author.as_str()).collect();
    assert_eq!(authors, vec!["a", "c"]);
    assert!(keep_compatible(vec![]).is_empty());
}

#[test]
fn initial_is_written_only_with_attributed_files() {
    let mut files = StrMap::new();
    files.insert("empty.rs".to_string(), vec![]);
    files.insert("a.rs".to_string(), vec![LineAttribution::new(1, 2, "h".to_string(), false)]);
    let written = initial_to_write(InitialAttributions { files, prompts: StrMap::new() }).unwrap();
    assert_eq!(written.files.len(), 1);
    assert!(written.files.contains_key("a.rs"));
    assert!(!written.files.contains_key("empty.rs"));

    let mut only_empty = StrMap::new();
    only_empty.insert("empty.rs".to_string(), vec![]);
    assert!(initial_to_write(InitialAttributions { files: only_empty, prompts: StrMap::new() }).is_none());
}
