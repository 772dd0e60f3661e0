use git_ai::line_attribution::attributions_to_line_attributions;
use git_ai::tracker::{attribute_unattributed_ranges, update_attributions};
use git_ai::working_log::Attribution;

fn at(start: usize, end: usize, author: &str, ts: u128) -> Attribution {
    Attribution { start, end, author_id: author.to_string(), ts }
}

fn view(v: &[Attribution]) -> Vec<(usize, usize, String, u128)> {
    v.iter().map(|a| (a.start, a.end, a.author_id.clone(), a.ts)).collect()
}

#[test]
fn inserted_line_goes_to_the_new_author() {
    let prev = vec![at(0, 4, "h", 1)];
    let next = update_attributions("a\nb\n", "a\nX\nb\n", &prev, "ai", 5).unwrap();
    assert_eq!(
        view(&next),
        vec![(0, 2, "h".to_string(), 1), (2, 4, "ai".to_string(), 5), (4, 6, "h".to_string(), 1)]
    );
}

#[test]
fn unchanged_content_keeps_its_attributions() {
    let prev = vec![at(0, 1, "a", 1), at(1, 4, "b", 2), at(5, 6, "a", 3)];
    let next = update_attributions("x\ny\nzz\n", "x\ny\nzz\n", &prev, "ai", 9).unwrap();
    assert_eq!(view(&next), view(&prev));
}

#[test]
fn deleted_lines_drop_their_attributions() {
    let prev = vec![at(0, 2, "x", 1), at(2, 4, "y", 2)];
    let next = update_attributions("a\nb\n", "b\n", &prev, "ai", 5).unwrap();
    assert_eq!(view(&next), vec![(0, 2, "y".to_string(), 2)]);
}

#[test]
fn touching_runs_of_one_author_are_joined() {
    let prev = vec![at(0, 2, "ai", 1)];
    let next = update_attributions("a\n", "a\nb\n", &prev, "ai", 7).unwrap();
    assert_eq!(view(&next), vec![(0, 4, "ai".to_string(), 7)]);
    let empty = update_attributions("", "", &[], "ai", 1).unwrap();
    assert!(empty.is_empty());
}

#[test]
fn gaps_are_filled_with_the_fallback() {
    let prev = vec![at(2, 4, "ai", 3), at(6, 7, "ai", 4)];
    let filled = attribute_unattributed_ranges("0123456789", &prev, "human", 1);
    assert_eq!(
        view(&filled),
        vec![
            (0, 2, "human".to_string(), 1),
            (2, 4, "ai".to_string(), 3),
            (4, 6, "human".to_string(), 1),
            (6, 7, "ai".to_string(), 4),
            (7, 10, "human".to_string(), 1),
        ]
    );
    assert_eq!(view(&attribute_unattributed_ranges("", &[], "human", 1)), vec![]);
    assert_eq!(view(&attribute_unattributed_ranges("ab", &[], "human", 1)), vec![(0, 2, "human".to_string(), 1)]);
}

#[test]
fn lines_go_to_the_author_with_most_bytes() {
    use_line_derivation();
}

fn use_line_derivation() {
    let attrs = vec![at(0, 2, "x", 1), at(2, 5, "y", 2), at(6, 9, "x", 3)];
    let lines = attributions_to_line_attributions(&attrs, "ab\ncd\nef\n");
    let got: Vec<(u32, u32, String)> = lines.iter().map(|l| (l.start_line, l.end_line, l.author_id.clone())).collect();
    assert_eq!(got, vec![(1, 1, "x".to_string()), (2, 2, "y".to_string()), (3, 3, "x".to_string())]);

    let tie_ts = vec![at(0, 1, "x", 5), at(1, 2, "y", 7)];
    let lines = attributions_to_line_attributions(&tie_ts, "ab\n");
    assert_eq!(lines[0].author_id, "y");

    let tie_all = vec![at(0, 1, "y", 5), at(1, 2, "x", 5)];
    let lines = attributions_to_line_attributions(&tie_all, "ab\n");
    assert_eq!(lines[0].author_id, "x");

    let runs = vec![at(0, 4, "ai", 1)];
    let lines = attributions_to_line_attributions(&runs, "a\nb\nc");
    let got: Vec<(u32, u32, String)> = lines.iter().map(|l| (l.start_line, l.end_line, l.author_id.clone())).collect();
    assert_eq!(got, vec![(1, 2, "ai".to_string())]);
    assert!(attributions_to_line_attributions(&runs, "").is_empty());
}
