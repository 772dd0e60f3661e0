use git_ai::authorship_log::{count_line_range, AttestationEntry, AuthorshipLog};
use git_ai::line_range::{compress_lines, LineRange};

#[test]
fn test_remove_line_ranges_complete_removal() {
    let mut entry = AttestationEntry::new("test_hash".to_string(), vec![LineRange::Range(2, 5)]);

    entry.remove_line_ranges(&[LineRange::Range(2, 5)]);

    assert!(
        entry.line_ranges.is_empty(),
        "Expected empty line_ranges after complete removal, got: {:?}",
        entry.line_ranges
    );
}

#[test]
fn test_remove_line_ranges_partial_removal() {
    let mut entry = AttestationEntry::new("test_hash".to_string(), vec![LineRange::Range(2, 10)]);

    entry.remove_line_ranges(&[LineRange::Range(5, 7)]);

    assert_eq!(entry.line_ranges.len(), 2);
    assert_eq!(entry.line_ranges[0], LineRange::Range(2, 4));
    assert_eq!(entry.line_ranges[1], LineRange::Range(8, 10));
}

#[test]
fn remove_keeps_single_lines_canonical() {
    assert_eq!(LineRange::Range(2, 4).remove(&LineRange::Single(3)), vec![LineRange::Single(2), LineRange::Single(4)]);
    assert_eq!(LineRange::Range(2, 4).remove(&LineRange::Range(7, 9)), vec![LineRange::Range(2, 4)]);
    assert!(LineRange::Single(3).remove(&LineRange::Range(1, 9)).is_empty());
}

#[test]
fn shift_moves_only_lines_at_or_after_the_point() {
    assert_eq!(LineRange::Range(2, 4).shift(10, 3), Some(LineRange::Range(2, 4)));
    assert_eq!(LineRange::Range(12, 14).shift(10, 3), Some(LineRange::Range(15, 17)));
    assert_eq!(LineRange::Range(8, 12).shift(10, 3), Some(LineRange::Range(8, 15)));
    assert_eq!(LineRange::Single(5).shift(5, -5), None);
    assert_eq!(LineRange::Range(5, 6).shift(5, -1), Some(LineRange::Range(4, 5)));
}

#[test]
fn shifting_twice_covers_one_combined_shift() {
    let r = LineRange::Range(10, 12);
    let twice = r.shift(8, 2).and_then(|x| x.shift(8, 3));
    assert_eq!(twice, r.shift(8, 5));
    assert_eq!(twice, Some(LineRange::Range(15, 17)));
}

#[test]
fn shift_line_ranges_drops_vanished_ranges() {
    let mut entry = AttestationEntry::new(
        "h".to_string(),
        vec![LineRange::Single(1), LineRange::Range(3, 4), LineRange::Single(9)],
    );
    entry.shift_line_ranges(3, -3);
    assert_eq!(entry.line_ranges, vec![LineRange::Single(1), LineRange::Single(6)]);
}

#[test]
fn expand_and_contains_agree() {
    let r = LineRange::Range(3, 6);
    assert_eq!(r.expand(), vec![3, 4, 5, 6]);
    assert!(r.contains(3) && r.contains(6) && !r.contains(7) && !r.contains(2));
    assert_eq!(count_line_range(&r), 4);
    assert_eq!(count_line_range(&LineRange::Single(9)), 1);
    assert_eq!(count_line_range(&LineRange::Range(0, u32::MAX)), 1u64 << 32);
}

#[test]
fn compress_lines_builds_canonical_ranges() {
    assert_eq!(
        compress_lines(&[1, 2, 3, 5, 7, 8]),
        vec![LineRange::Range(1, 3), LineRange::Single(5), LineRange::Range(7, 8)]
    );
    assert!(compress_lines(&[]).is_empty());
    assert_eq!(compress_lines(&[u32::MAX]), vec![LineRange::Single(u32::MAX)]);
}

#[test]
fn merge_line_ranges_sorts_and_joins() {
    let merged = AuthorshipLog::merge_line_ranges(&[
        LineRange::Range(10, 12),
        LineRange::Single(1),
        LineRange::Range(13, 15),
        LineRange::Range(2, 3),
        LineRange::Range(11, 11),
        LineRange::Single(20),
    ]);
    assert_eq!(merged, vec![LineRange::Range(1, 3), LineRange::Range(10, 15), LineRange::Single(20)]);
    assert_eq!(AuthorshipLog::merge_line_ranges(&merged), merged);
    assert!(AuthorshipLog::merge_line_ranges(&[]).is_empty());
    assert_eq!(
        AuthorshipLog::merge_line_ranges(&[LineRange::Range(5, 5)]),
        vec![LineRange::Single(5)]
    );
    assert_eq!(
        AuthorshipLog::merge_line_ranges(&[LineRange::Single(u32::MAX), LineRange::Single(u32::MAX - 1)]),
        vec![LineRange::Range(u32::MAX - 1, u32::MAX)]
    );
}

#[test]
fn ranges_can_merge_when_touching() {
    assert!(AuthorshipLog::ranges_can_merge(&LineRange::Range(1, 3), &LineRange::Single(4)));
    assert!(!AuthorshipLog::ranges_can_merge(&LineRange::Range(1, 3), &LineRange::Single(5)));
    assert_eq!(
        AuthorshipLog::merge_ranges(&LineRange::Range(1, 3), &LineRange::Single(4)),
        LineRange::Range(1, 4)
    );
}

#[test]
fn ranges_before_the_point_and_zero_shifts_are_unchanged() {
    assert_eq!(LineRange::Range(3, 3).shift(10, 0), Some(LineRange::Range(3, 3)));
    assert_eq!(LineRange::Single(0).shift(5, 2), Some(LineRange::Single(0)));
    assert_eq!(LineRange::Range(3, 3).shift(3, 2), Some(LineRange::Range(5, 5)));
    let mut entry = AttestationEntry::new("h".to_string(), vec![LineRange::Range(3, 3), LineRange::Single(0)]);
    entry.shift_line_ranges(1, 0);
    assert_eq!(entry.line_ranges, vec![LineRange::Range(3, 3), LineRange::Single(0)]);
}
