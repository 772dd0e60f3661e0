use git_ai::authorship_log::{
    AgentId, AttestationEntry, AuthorshipLog, FileAttestation, Message, PromptRecord,
};
use git_ai::diff::{overlay_diff_attributions, parse_hunk_line, Attribution, LineSide};
use git_ai::line_range::LineRange;
use git_ai::serialization::{
    format_line_ranges, needs_quoting, parse_attestation_section, parse_line_ranges,
    split_authorship_text,
};
use git_ai::short_hash::generate_short_hash;
use git_ai::str_map::StrMap;
use git_ai::working_log::{
    Checkpoint, CheckpointKind, CheckpointLineStats, LineAttribution, WorkingLogEntry,
};

fn agent(tool: &str, id: &str) -> AgentId {
    AgentId { tool: tool.to_string(), id: id.to_string(), model: "model".to_string() }
}

fn record(tool: &str, id: &str) -> PromptRecord {
    PromptRecord {
        agent_id: agent(tool, id),
        human_author: None,
        messages: vec![],
        total_additions: 0,
        total_deletions: 0,
        accepted_lines: 0,
        overriden_lines: 0,
    }
}

fn stats() -> CheckpointLineStats {
    CheckpointLineStats {
        human_additions: 0,
        human_deletions: 0,
        ai_agent_additions: 0,
        ai_agent_deletions: 0,
        ai_tab_additions: 0,
        ai_tab_deletions: 0,
        overrides: 0,
    }
}

fn la(start: u32, end: u32, author: &str, overridden: bool) -> LineAttribution {
    LineAttribution::new(start, end, author.to_string(), overridden)
}

fn checkpoint(
    kind: CheckpointKind,
    agent_id: Option<AgentId>,
    transcript: Option<Vec<Message>>,
    entries: Vec<(&str, Vec<LineAttribution>)>,
    line_stats: CheckpointLineStats,
) -> Checkpoint {
    Checkpoint {
        kind,
        diff: String::new(),
        author: "someone".to_string(),
        entries: entries
            .into_iter()
            .map(|(file, line_attributions)| WorkingLogEntry {
                file: file.to_string(),
                blob_sha: String::new(),
                attributions: vec![],
                line_attributions,
            })
            .collect(),
        timestamp: 0,
        transcript,
        agent_id,
        line_stats,
        api_version: "checkpoint/1.0.0".to_string(),
    }
}

fn two_file_log() -> AuthorshipLog {
    let mut log = AuthorshipLog::new();
    let mut file1 = FileAttestation::new("src/file.xyz".to_string());
    file1.add_entry(AttestationEntry::new(
        "xyzAbc".to_string(),
        vec![LineRange::Single(1), LineRange::Single(2), LineRange::Range(19, 222)],
    ));
    file1.add_entry(AttestationEntry::new("123456".to_string(), vec![LineRange::Range(400, 405)]));
    let mut file2 = FileAttestation::new("src/file2.xyz".to_string());
    file2.add_entry(AttestationEntry::new(
        "123456".to_string(),
        vec![LineRange::Range(1, 111), LineRange::Single(245), LineRange::Single(260)],
    ));
    log.attestations.push(file1);
    log.attestations.push(file2);
    log
}

#[test]
fn test_format_line_ranges() {
    let ranges = vec![LineRange::Range(19, 222), LineRange::Single(1), LineRange::Single(2)];
    assert_eq!(format_line_ranges(&ranges), "1,2,19-222");
}

#[test]
fn test_parse_line_ranges() {
    let ranges = parse_line_ranges("1,2,19-222").unwrap();
    assert_eq!(ranges, vec![LineRange::Single(1), LineRange::Single(2), LineRange::Range(19, 222)]);
}

#[test]
fn test_line_range_sorting() {
    let ranges = vec![
        LineRange::Range(100, 200),
        LineRange::Single(5),
        LineRange::Range(10, 15),
        LineRange::Single(50),
        LineRange::Single(1),
        LineRange::Range(25, 30),
    ];
    assert_eq!(format_line_ranges(&ranges), "1,5,10-15,25-30,50,100-200");
}

#[test]
fn test_expected_format() {
    let log = two_file_log();
    assert_eq!(
        log.serialize_attestations(),
        "src/file.xyz\n  xyzAbc 1,2,19-222\n  123456 400-405\nsrc/file2.xyz\n  123456 1-111,245,260\n---\n"
    );
}

#[test]
fn test_serialize_deserialize_roundtrip() {
    let mut log = two_file_log();
    log.metadata.base_commit_sha = "abc123".to_string();
    let text = log.serialize_attestations() + "{\n  \"base_commit_sha\": \"abc123\"\n}";
    let (files, json) = split_authorship_text(&text).unwrap();
    assert_eq!(files, log.attestations);
    assert_eq!(json, "{\n  \"base_commit_sha\": \"abc123\"\n}");
}

#[test]
fn test_file_names_with_spaces() {
    let hash = generate_short_hash("session_123", "cursor");
    let mut log = AuthorshipLog::new();
    log.metadata.prompts.insert(hash.clone(), record("cursor", "session_123"));
    let mut file1 = FileAttestation::new("src/my file.rs".to_string());
    file1.add_entry(AttestationEntry::new(hash.clone(), vec![LineRange::Range(1, 10)]));
    let mut file2 = FileAttestation::new("docs/README (copy).md".to_string());
    file2.add_entry(AttestationEntry::new(hash.clone(), vec![LineRange::Single(5)]));
    let mut file3 = FileAttestation::new("test/file-with-dashes.js".to_string());
    file3.add_entry(AttestationEntry::new(hash.clone(), vec![LineRange::Range(20, 25)]));
    log.attestations.push(file1);
    log.attestations.push(file2);
    log.attestations.push(file3);

    let text = log.serialize_attestations();
    assert_eq!(
        text,
        "\"src/my file.rs\"\n  c9883b0 1-10\n\"docs/README (copy).md\"\n  c9883b0 5\ntest/file-with-dashes.js\n  c9883b0 20-25\n---\n"
    );
    let (files, _) = split_authorship_text(&text).unwrap();
    assert_eq!(files, log.attestations);
}

#[test]
fn test_hash_always_maps_to_prompt() {
    let hash = generate_short_hash("session_123", "cursor");
    assert_eq!(hash, "c9883b0");
    let mut log = AuthorshipLog::new();
    log.metadata.prompts.insert(hash.clone(), record("cursor", "session_123"));
    let mut file1 = FileAttestation::new("src/example.rs".to_string());
    file1.add_entry(AttestationEntry::new(hash.clone(), vec![LineRange::Range(1, 10)]));
    log.attestations.push(file1);
    assert_eq!(log.serialize_attestations(), "src/example.rs\n  c9883b0 1-10\n---\n");
    for file_attestation in &log.attestations {
        for entry in &file_attestation.entries {
            assert!(log.metadata.prompts.contains_key(&entry.hash));
        }
    }
}

#[test]
fn test_serialize_deserialize_no_attestations() {
    let mut log = AuthorshipLog::new();
    log.metadata.base_commit_sha = "abc123".to_string();
    log.metadata.prompts.insert(generate_short_hash("session_123", "cursor"), record("cursor", "session_123"));
    let text = log.serialize_attestations();
    assert_eq!(text, "---\n");
    let (files, json) = split_authorship_text(&(text + "{}")).unwrap();
    assert_eq!(files.len(), 0);
    assert_eq!(json, "{}");
    assert_eq!(log.metadata.prompts.len(), 1);
}

#[test]
fn short_hashes_of_sessions() {
    assert_eq!(generate_short_hash("s1", "cursor"), "99e5c2d");
    assert_ne!(generate_short_hash("s1", "cursor"), generate_short_hash("s2", "cursor"));
}

#[test]
fn parse_errors_are_reported() {
    assert!(parse_line_ranges("1,x").is_err());
    assert!(parse_line_ranges("3-").is_err());
    assert!(parse_line_ranges("4294967296").is_err());
    assert_eq!(parse_line_ranges(",,7,").unwrap(), vec![LineRange::Single(7)]);
    assert!(split_authorship_text("a.rs\n  h 1\n").is_err());
    assert!(split_authorship_text("  h 1\n---\n{}").is_err());
    assert!(split_authorship_text("a.rs\n  h\n---\n{}").is_err());
    assert!(split_authorship_text("\"\n---\n").is_err());
}

#[test]
fn section_parser_drops_files_without_entries_and_trims() {
    let lines: Vec<String> = vec![
        "empty.rs".to_string(),
        "a.rs  ".to_string(),
        "  h 1-3,5 ".to_string(),
        "".to_string(),
        "\"b c.rs\"".to_string(),
        "  g 9".to_string(),
    ];
    let files = parse_attestation_section(&lines).unwrap();
    assert_eq!(files.len(), 2);
    assert_eq!(files[0].file_path, "a.rs");
    assert_eq!(files[0].entries[0].line_ranges, vec![LineRange::Range(1, 3), LineRange::Single(5)]);
    assert_eq!(files[1].file_path, "b c.rs");
    assert!(needs_quoting("b c.rs") && needs_quoting("t\tab") && !needs_quoting("plain.rs"));
}

#[test]
fn initial_ai_checkpoint_single_file() {
    let h = generate_short_hash("s1", "cursor");
    let mut s = stats();
    s.ai_agent_additions = 2;
    let cp = checkpoint(
        CheckpointKind::AiAgent,
        Some(agent("cursor", "s1")),
        None,
        vec![("a.txt", vec![la(1, 1, "human", false), la(2, 3, &h, false)])],
        s,
    );
    let log = AuthorshipLog::from_working_log_with_base_commit_and_human_author(&[cp], "base", None, None, false);
    assert_eq!(log.metadata.base_commit_sha, "base");
    assert_eq!(log.attestations.len(), 1);
    assert_eq!(log.attestations[0].file_path, "a.txt");
    assert_eq!(log.attestations[0].entries, vec![AttestationEntry::new(h.clone(), vec![LineRange::Range(2, 3)])]);
    let rec = log.metadata.prompts.get(&h).unwrap();
    assert_eq!(rec.accepted_lines, 2);
    assert_eq!(rec.total_additions, 2);
}

#[test]
fn human_override_leaves_one_ai_line() {
    let h = generate_short_hash("s1", "cursor");
    let first = checkpoint(
        CheckpointKind::AiAgent,
        Some(agent("cursor", "s1")),
        None,
        vec![("a.txt", vec![la(1, 1, "human", false), la(2, 3, &h, false)])],
        stats(),
    );
    let second = checkpoint(
        CheckpointKind::Human,
        None,
        None,
        vec![("a.txt", vec![la(1, 1, "human", false), la(2, 2, "human", true), la(3, 3, &h, false)])],
        stats(),
    );
    let log = AuthorshipLog::from_working_log_with_base_commit_and_human_author(
        &[first, second],
        "base",
        Some("alice"),
        None,
        false,
    );
    assert_eq!(log.attestations[0].entries, vec![AttestationEntry::new(h.clone(), vec![LineRange::Single(3)])]);
    assert_eq!(log.metadata.prompts.get(&h).unwrap().accepted_lines, 1);
    assert_eq!(log.metadata.prompts.get(&h).unwrap().human_author, Some("alice".to_string()));
}

#[test]
fn apply_checkpoint_keeps_the_longest_transcript_and_counts() {
    let h = generate_short_hash("s1", "cursor");
    let short = vec![Message::User { text: "hi".to_string(), timestamp: None }];
    let long = vec![
        Message::User { text: "hi".to_string(), timestamp: None },
        Message::Assistant { text: "ok".to_string(), timestamp: None },
    ];
    let mut s = stats();
    s.ai_agent_additions = 3;
    s.ai_agent_deletions = 1;
    let mut log = AuthorshipLog::new();
    let mut adds = StrMap::new();
    let mut dels = StrMap::new();
    let c1 = checkpoint(CheckpointKind::AiAgent, Some(agent("cursor", "s1")), Some(long.clone()), vec![], s);
    let c2 = checkpoint(CheckpointKind::AiAgent, Some(agent("cursor", "s1")), Some(short), vec![], s);
    log.apply_checkpoint(&c1, None, &mut adds, &mut dels);
    log.apply_checkpoint(&c2, None, &mut adds, &mut dels);
    assert_eq!(log.metadata.prompts.get(&h).unwrap().messages, long);
    assert_eq!(adds.get(&h), Some(&6));
    assert_eq!(dels.get(&h), Some(&2));
}

#[test]
fn finalize_sorts_and_merges_entries() {
    let mut log = AuthorshipLog::new();
    log.metadata.prompts.insert("bbb".to_string(), record("t", "b"));
    log.metadata.prompts.insert("aaa".to_string(), record("t", "a"));
    let mut f = FileAttestation::new("f.rs".to_string());
    f.add_entry(AttestationEntry::new("bbb".to_string(), vec![LineRange::Range(5, 6)]));
    f.add_entry(AttestationEntry::new("aaa".to_string(), vec![LineRange::Single(1)]));
    f.add_entry(AttestationEntry::new("bbb".to_string(), vec![LineRange::Single(7), LineRange::Single(2)]));
    f.add_entry(AttestationEntry::new("ccc".to_string(), vec![]));
    log.attestations.push(f);
    log.attestations.push(FileAttestation::new("empty.rs".to_string()));
    let mut adds = StrMap::new();
    adds.insert("aaa".to_string(), 4u32);
    log.finalize(&adds, &StrMap::new());
    assert_eq!(log.attestations.len(), 1);
    assert_eq!(
        log.attestations[0].entries,
        vec![
            AttestationEntry::new("aaa".to_string(), vec![LineRange::Single(1)]),
            AttestationEntry::new("bbb".to_string(), vec![LineRange::Single(2), LineRange::Range(5, 7)]),
        ]
    );
    assert_eq!(log.metadata.prompts.get("aaa").unwrap().accepted_lines, 1);
    assert_eq!(log.metadata.prompts.get("aaa").unwrap().total_additions, 4);
    assert_eq!(log.metadata.prompts.get("bbb").unwrap().accepted_lines, 4);
    assert_eq!(log.metadata.prompts.get("bbb").unwrap().total_additions, 0);
    let sum: u32 = (0..log.metadata.prompts.len()).map(|i| log.metadata.prompts.value_at(i).accepted_lines).sum();
    assert_eq!(sum, 5);
}

#[test]
fn filtering_to_committed_lines_drops_unreferenced_prompts() {
    let mut log = AuthorshipLog::new();
    for h in ["h1", "h2", "h3"] {
        log.metadata.prompts.insert(h.to_string(), record("t", h));
    }
    let mut f = FileAttestation::new("f.rs".to_string());
    f.add_entry(AttestationEntry::new("h1".to_string(), vec![LineRange::Range(1, 3)]));
    f.add_entry(AttestationEntry::new("h2".to_string(), vec![LineRange::Single(10)]));
    f.add_entry(AttestationEntry::new("h3".to_string(), vec![LineRange::Range(20, 30)]));
    let mut g = FileAttestation::new("g.rs".to_string());
    g.add_entry(AttestationEntry::new("h1".to_string(), vec![LineRange::Single(1)]));
    log.attestations.push(f);
    log.attestations.push(g);
    let mut committed = StrMap::new();
    committed.insert("f.rs".to_string(), vec![LineRange::Range(5, 9), LineRange::Range(25, 26), LineRange::Single(28)]);
    log.filter_to_committed_lines(&committed);
    assert_eq!(log.attestations.len(), 1);
    assert_eq!(
        log.attestations[0].entries,
        vec![AttestationEntry::new("h3".to_string(), vec![LineRange::Range(25, 26), LineRange::Single(28)])]
    );
    assert!(!log.metadata.prompts.contains_key("h1"));
    assert!(!log.metadata.prompts.contains_key("h2"));
    assert!(log.metadata.prompts.contains_key("h3"));
}

#[test]
fn line_lookup_prefers_the_latest_entry_and_foreign_records() {
    let mut log = AuthorshipLog::new();
    log.metadata.prompts.insert("h1".to_string(), record("cursor", "a"));
    let mut f = FileAttestation::new("f.rs".to_string());
    f.add_entry(AttestationEntry::new("h1".to_string(), vec![LineRange::Range(1, 5)]));
    f.add_entry(AttestationEntry::new("h2".to_string(), vec![LineRange::Range(4, 8)]));
    log.attestations.push(f);
    let mut cache = StrMap::new();
    let (author, hash, _) = log.get_line_attribution("f.rs", 4, &cache).unwrap();
    assert_eq!((author.username.as_str(), hash.as_deref()), ("cursor", Some("h1")));
    assert!(log.get_line_attribution("f.rs", 7, &cache).is_none());
    assert_eq!(log.unknown_hashes(), vec!["h2".to_string()]);
    cache.insert("h2".to_string(), Some(record("copilot", "b")));
    let (author, hash, _) = log.get_line_attribution("f.rs", 4, &cache).unwrap();
    assert_eq!((author.username.as_str(), hash.as_deref()), ("copilot", Some("h2")));
    assert!(log.get_line_attribution("g.rs", 1, &cache).is_none());
}

#[test]
fn overlay_annotates_both_sides() {
    let mut log = AuthorshipLog::new();
    log.metadata.prompts.insert("h1".to_string(), record("cursor", "a"));
    let mut f = FileAttestation::new("f.rs".to_string());
    f.add_entry(AttestationEntry::new("h1".to_string(), vec![LineRange::Single(2)]));
    log.attestations.push(f);
    let hunk = parse_hunk_line("@@ -1 +2,2 @@", "f.rs").unwrap().unwrap();
    let out = overlay_diff_attributions(None, Some(&log), &[hunk], &StrMap::new());
    assert_eq!(out.len(), 3);
    assert_eq!(out[0].0.side, LineSide::Old);
    assert_eq!(out[0].1, Attribution::NoData);
    assert_eq!(out[1].0.line, 2);
    assert_eq!(out[1].1, Attribution::Ai("cursor".to_string()));
    assert_eq!(out[2].1, Attribution::NoData);
}

#[test]
fn prompts_are_emptied_when_not_kept() {
    let h = generate_short_hash("s1", "cursor");
    let cp = checkpoint(
        CheckpointKind::AiAgent,
        Some(agent("cursor", "s1")),
        Some(vec![Message::User { text: "secret".to_string(), timestamp: None }]),
        vec![("a.txt", vec![la(1, 2, &h, false)])],
        stats(),
    );
    let log = AuthorshipLog::from_working_log_with_base_commit_and_human_author(&[cp], "b", None, None, true);
    assert!(log.metadata.prompts.get(&h).unwrap().messages.is_empty());
    let mut initial = StrMap::new();
    initial.insert("old".to_string(), record("t", "x"));
    let log = AuthorshipLog::from_working_log_with_base_commit_and_human_author(&[], "b", None, Some(&initial), false);
    assert!(log.metadata.prompts.contains_key("old"));
}

#[test]
fn test_metrics_calculation() {
    let h = generate_short_hash("test_session", "cursor");
    let mut s1 = stats();
    s1.ai_agent_additions = 10;
    s1.ai_agent_deletions = 0;
    let mut s2 = stats();
    s2.ai_agent_additions = 5;
    s2.ai_agent_deletions = 3;
    let cp1 = checkpoint(
        CheckpointKind::AiAgent,
        Some(agent("cursor", "test_session")),
        None,
        vec![("src/test.rs", vec![la(1, 10, &h, false)])],
        s1,
    );
    let cp2 = checkpoint(
        CheckpointKind::AiAgent,
        Some(agent("cursor", "test_session")),
        None,
        vec![("src/test.rs", vec![la(1, 4, &h, false), la(5, 9, &h, false)])],
        s2,
    );
    let log = AuthorshipLog::from_working_log_with_base_commit_and_human_author(&[cp1, cp2], "base123", None, None, false);
    let prompt_record = log.metadata.prompts.get(&h).unwrap();
    assert_eq!(prompt_record.total_additions, 15);
    assert_eq!(prompt_record.total_deletions, 3);
    assert_eq!(prompt_record.accepted_lines, 9);
}

#[test]
fn test_overriden_lines_detection() {
    let h = generate_short_hash("session_123", "cursor");
    let mut s1 = stats();
    s1.ai_agent_additions = 5;
    let mut s2 = stats();
    s2.ai_agent_additions = 5;
    s2.human_additions = 0;
    let cp1 = checkpoint(
        CheckpointKind::AiAgent,
        Some(agent("cursor", "session_123")),
        None,
        vec![("src/main.rs", vec![la(1, 5, &h, false)])],
        s1,
    );
    let cp2 = checkpoint(
        CheckpointKind::Human,
        None,
        None,
        vec![("src/main.rs", vec![la(1, 1, &h, true), la(2, 3, &h, true)])],
        s2,
    );
    let log = AuthorshipLog::from_working_log_with_base_commit_and_human_author(
        &[cp1, cp2],
        "base123",
        Some("human@example.com"),
        None,
        false,
    );
    let prompt_record = log.metadata.prompts.get(&h).unwrap();
    assert_eq!(prompt_record.total_additions, 5);
    assert_eq!(prompt_record.total_deletions, 0);
    assert_eq!(prompt_record.accepted_lines, 3);
}

#[test]
fn backwards_ranges_are_rejected() {
    assert!(parse_line_ranges("5-3").is_err());
    assert_eq!(parse_line_ranges("3-3").unwrap(), vec![LineRange::Range(3, 3)]);
    assert!(split_authorship_text("a.rs\n  h 9-2\n---\n{}").is_err());
}
