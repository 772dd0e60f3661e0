use git_ai::authorship_log::{AgentId, AuthorshipLog, PromptRecord};
use git_ai::prompt_utils::{find_prompt_in_commit, find_prompt_in_history};

fn log_with(id: &str, tool: &str) -> AuthorshipLog {
    let mut log = AuthorshipLog::new();
    log.metadata.prompts.insert(
        id.to_string(),
        PromptRecord {
            agent_id: AgentId { tool: tool.to_string(), id: "x".to_string(), model: "m".to_string() },
            human_author: None,
            messages: vec![],
            total_additions: 0,
            total_deletions: 0,
            accepted_lines: 0,
            overriden_lines: 0,
        },
    );
    log
}

#[test]
fn prompt_in_one_commit() {
    let log = log_with("p1", "cursor");
    let (sha, rec) = find_prompt_in_commit(&"c1".to_string(), Some(&log), "p1").unwrap();
    assert_eq!((sha.as_str(), rec.agent_id.tool.as_str()), ("c1", "cursor"));
    assert!(find_prompt_in_commit(&"c1".to_string(), Some(&log), "p2").is_err());
    assert!(find_prompt_in_commit(&"c1".to_string(), None, "p1").is_err());
}

#[test]
fn prompt_in_history_with_offset() {
    let candidates = vec![
        ("c3".to_string(), Some(log_with("p1", "newest"))),
        ("c2".to_string(), None),
        ("c1".to_string(), Some(log_with("p9", "other"))),
        ("c0".to_string(), Some(log_with("p1", "oldest"))),
    ];
    let (sha, rec) = find_prompt_in_history(&candidates, "p1", 0).unwrap();
    assert_eq!((sha.as_str(), rec.agent_id.tool.as_str()), ("c3", "newest"));
    let (sha, rec) = find_prompt_in_history(&candidates, "p1", 1).unwrap();
    assert_eq!((sha.as_str(), rec.agent_id.tool.as_str()), ("c0", "oldest"));
    assert!(find_prompt_in_history(&candidates, "p1", 2).is_err());
    assert!(find_prompt_in_history(&candidates, "zz", 0).is_err());
    assert!(find_prompt_in_history(&[], "p1", 0).is_err());
}
