use git_ai::authorship_log::{AgentId, AttestationEntry, PromptRecord};
use git_ai::line_range::LineRange;
use git_ai::str_map::StrMap;
use git_ai::virtual_attribution::to_authorship_log;
use git_ai::working_log::LineAttribution;
use git_ai::virtual_attribution::{transform_file, transform_to_final_state, FileState, VirtualAttributions};
use git_ai::working_log::Attribution;

fn at(start: usize, end: usize, author: &str, ts: u128) -> Attribution {
    Attribution { start, end, author_id: author.to_string(), ts }
}

fn view(v: &[Attribution]) -> Vec<(usize, usize, String)> {
    v.iter().map(|a| (a.start, a.end, a.author_id.clone())).collect()
}

#[test]
fn new_text_without_a_reference_is_dropped() {
    let src = vec![at(0, 2, "ai", 1)];
    let out = transform_file(Some(("a\n", &src)), "a\nnew\n", None, 5).unwrap();
    assert_eq!(view(&out), vec![(0, 2, "ai".to_string())]);
}

#[test]
fn new_text_found_in_the_reference_takes_its_author() {
    let src = vec![at(0, 2, "ai", 1)];
    let reference = vec![at(0, 4, "sess", 3)];
    let out = transform_file(Some(("a\n", &src)), "a\nb\n", Some(("b\nzz\n", &reference)), 5).unwrap();
    assert_eq!(view(&out), vec![(0, 2, "ai".to_string()), (2, 4, "sess".to_string())]);
}

#[test]
fn matching_reference_content_is_adopted_whole() {
    let reference = vec![at(0, 1, "x", 2), at(1, 4, "y", 3)];
    let out = transform_file(None, "ab\nc", Some(("ab\nc", &reference)), 5).unwrap();
    assert_eq!(view(&out), vec![(0, 1, "x".to_string()), (1, 4, "y".to_string())]);
    assert!(transform_file(None, "ab\n", None, 5).unwrap().is_empty());
}

#[test]
fn state_transform_keeps_empty_files_and_prompts() {
    let mut files = StrMap::new();
    files.insert(
        "kept.rs".to_string(),
        FileState { content: "k\n".to_string(), attributions: vec![at(0, 2, "ai", 1)], line_attributions: vec![] },
    );
    files.insert(
        "moved.rs".to_string(),
        FileState { content: "m\n".to_string(), attributions: vec![at(0, 2, "ai", 1)], line_attributions: vec![] },
    );
    let source = VirtualAttributions { base_commit: "base".to_string(), ts: 9, files, prompts: StrMap::new() };
    let mut fin = StrMap::new();
    fin.insert("kept.rs".to_string(), String::new());
    fin.insert("moved.rs".to_string(), "m\nx\n".to_string());
    fin.insert("absent.rs".to_string(), String::new());
    let out = transform_to_final_state(&source, &fin, None).unwrap();
    assert_eq!(out.files.len(), 2);
    assert_eq!(out.files.get("kept.rs").unwrap().content, "k\n");
    let moved = out.files.get("moved.rs").unwrap();
    assert_eq!(moved.content, "m\nx\n");
    assert_eq!(view(&moved.attributions), vec![(0, 2, "ai".to_string())]);
    assert_eq!(moved.line_attributions.len(), 1);
    assert_eq!(out.base_commit, "base");
    assert!(out.files.get("absent.rs").is_none());
}

#[test]
fn emission_keeps_sessions_with_lines() {
    let record = |n: u32| PromptRecord {
        agent_id: AgentId { tool: "t".to_string(), id: "i".to_string(), model: "m".to_string() },
        human_author: None,
        messages: vec![],
        total_additions: n,
        total_deletions: 1,
        accepted_lines: 0,
        overriden_lines: 0,
    };
    let mut files = StrMap::new();
    files.insert(
        "f.rs".to_string(),
        FileState {
            content: "a\nb\nc\n".to_string(),
            attributions: vec![],
            line_attributions: vec![
                LineAttribution::new(1, 2, "h1".to_string(), false),
                LineAttribution::new(3, 3, "human".to_string(), false),
            ],
        },
    );
    files.insert(
        "g.rs".to_string(),
        FileState { content: "x\n".to_string(), attributions: vec![], line_attributions: vec![] },
    );
    let mut prompts = StrMap::new();
    prompts.insert("h1".to_string(), record(7));
    prompts.insert("unused".to_string(), record(2));
    let va = VirtualAttributions { base_commit: "b".to_string(), ts: 1, files, prompts };
    let log = to_authorship_log(&va, "c1");
    assert_eq!(log.metadata.base_commit_sha, "c1");
    assert_eq!(log.attestations.len(), 1);
    assert_eq!(log.attestations[0].entries, vec![AttestationEntry::new("h1".to_string(), vec![LineRange::Range(1, 2)])]);
    let rec = log.metadata.prompts.get("h1").unwrap();
    assert_eq!((rec.total_additions, rec.total_deletions, rec.accepted_lines), (7, 1, 2));
    assert!(!log.metadata.prompts.contains_key("unused"));
}
