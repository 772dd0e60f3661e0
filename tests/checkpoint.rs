use git_ai::authorship_log::AgentId;
use git_ai::checkpoint::{
    assemble_checkpoint, checkpoint_author_id, checkpoint_plan, combined_content_hash, make_entry_for_file,
    prior_line_attributions, skips_file,
};
use git_ai::str_map::StrMap;
use git_ai::working_log::{CheckpointKind, CheckpointLineStats, LineAttribution, WorkingLogEntry, CHECKPOINT_API_VERSION};

fn la(start: u32, end: u32, author: &str) -> LineAttribution {
    LineAttribution::new(start, end, author.to_string(), false)
}

fn lines(v: &[LineAttribution]) -> Vec<(u32, u32, String)> {
    v.iter().map(|a| (a.start_line, a.end_line, a.author_id.clone())).collect()
}

#[test]
fn author_ids_by_kind() {
    let agent = AgentId { tool: "cursor".to_string(), id: "s1".to_string(), model: "m".to_string() };
    assert_eq!(checkpoint_author_id(CheckpointKind::AiAgent, Some(&agent)), "99e5c2d");
    assert_eq!(checkpoint_author_id(CheckpointKind::Human, Some(&agent)), "human");
    assert_eq!(checkpoint_author_id(CheckpointKind::AiTab, None), "ai_tab");
    assert_eq!(CheckpointKind::AiAgent.to_str(), "ai_agent");
}

#[test]
fn unchanged_files_are_skipped_unless_seeded() {
    assert!(skips_file("a\n", "a\n", false));
    assert!(!skips_file("a\n", "a\n", true));
    assert!(!skips_file("a\n", "b\n", false));
}

#[test]
fn prior_attributions_for_an_ai_checkpoint() {
    let initial = vec![la(1, 2, "seed")];
    let blame = vec![(2, "other".to_string()), (3, "human".to_string()), (4, "sess".to_string())];
    let r = prior_line_attributions(CheckpointKind::AiAgent, "me", &initial, &blame, 6);
    assert_eq!(
        lines(&r),
        vec![
            (1, 2, "seed".to_string()),
            (3, 3, "me".to_string()),
            (4, 4, "sess".to_string()),
            (5, 5, "me".to_string()),
            (6, 6, "me".to_string()),
        ]
    );
}

#[test]
fn prior_attributions_for_a_human_checkpoint() {
    let blame = vec![(1, "human".to_string()), (2, "sess".to_string())];
    let r = prior_line_attributions(CheckpointKind::Human, "human", &[], &blame, 5);
    assert_eq!(lines(&r), vec![(2, 2, "sess".to_string())]);
}

#[test]
fn entry_for_an_ai_edit() {
    let entry = make_entry_for_file("a.txt", "sha", "ai", "a\n", &vec![], "a\nb\n", 10).unwrap();
    assert_eq!(entry.file, "a.txt");
    assert_eq!(entry.blob_sha, "sha");
    let attrs: Vec<(usize, usize, String, u128)> =
        entry.attributions.iter().map(|a| (a.start, a.end, a.author_id.clone(), a.ts)).collect();
    assert_eq!(attrs, vec![(0, 2, "human".to_string(), 9), (2, 4, "ai".to_string(), 10)]);
    assert_eq!(lines(&entry.line_attributions), vec![(1, 1, "human".to_string()), (2, 2, "ai".to_string())]);
}

#[test]
fn checkpoint_plan_and_assembly() {
    use_plan();
}

fn use_plan() {
    let p = checkpoint_plan(CheckpointKind::AiAgent, false, 3);
    assert_eq!((p.reset_log, p.initial_entries, p.with_agent), (false, false, true));
    let p = checkpoint_plan(CheckpointKind::Human, false, 0);
    assert_eq!((p.reset_log, p.initial_entries, p.with_agent), (false, true, false));
    let p = checkpoint_plan(CheckpointKind::Human, true, 4);
    assert!(p.reset_log && p.initial_entries);

    let stats = CheckpointLineStats {
        human_additions: 0,
        human_deletions: 0,
        ai_agent_additions: 0,
        ai_agent_deletions: 0,
        ai_tab_additions: 0,
        ai_tab_deletions: 0,
        overrides: 0,
    };
    let agent = AgentId { tool: "cursor".to_string(), id: "s1".to_string(), model: "m".to_string() };
    assert!(assemble_checkpoint(CheckpointKind::AiAgent, "h".to_string(), "a".to_string(), vec![], Some(agent.clone()), None, stats, 1).is_none());
    let entry = WorkingLogEntry { file: "f".to_string(), blob_sha: "b".to_string(), attributions: vec![], line_attributions: vec![] };
    let cp = assemble_checkpoint(CheckpointKind::Human, "h".to_string(), "a".to_string(), vec![entry.clone()], Some(agent.clone()), None, stats, 1).unwrap();
    assert!(cp.agent_id.is_none());
    assert_eq!(cp.api_version, CHECKPOINT_API_VERSION);
    let cp = assemble_checkpoint(CheckpointKind::AiTab, "h".to_string(), "a".to_string(), vec![entry], Some(agent.clone()), None, stats, 1).unwrap();
    assert_eq!(cp.agent_id, Some(agent));

    let mut hashes = StrMap::new();
    hashes.insert("b.rs".to_string(), "h2".to_string());
    hashes.insert("a.rs".to_string(), "h1".to_string());
    assert_eq!(
        combined_content_hash(&hashes),
        "a865cf3c26664a35a32ea18b3fe6b2c1768674785c11dd5465062fabe3c2629c"
    );
}
