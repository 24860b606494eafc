use lumen::context::{band_height, compute_context_lines, ContextLine};
use lumen::diff_algo::{compute_side_by_side, find_hunk_starts, DiffLine};
use lumen::stats::compute_line_stats;
use lumen::text::{expand_tabs_str, split_lines};
use lumen::types::{ChangeType, ContextSettings, FileDiff, FileStatus};

fn side(n: usize, t: &str) -> Option<(usize, String)> {
    Some((n, t.to_string()))
}

#[test]
fn modified_line_forms_one_hunk() {
    let lines = compute_side_by_side("a\nb\nc\n", "a\nx\nc\n", 4);
    assert_eq!(lines.len(), 3);
    assert_eq!(lines[0].change_type, ChangeType::Equal);
    assert_eq!(lines[1].change_type, ChangeType::Modified);
    assert_eq!(lines[1].old_line, side(2, "b"));
    assert_eq!(lines[1].new_line, side(2, "x"));
    assert_eq!(lines[2].change_type, ChangeType::Equal);
    assert_eq!(find_hunk_starts(&lines), vec![1]);
}

#[test]
fn identical_texts_are_all_equal() {
    let text = "fn main() {\n\tlet x = 1;\n}\n";
    let lines = compute_side_by_side(text, text, 4);
    assert_eq!(lines.len(), 3);
    assert!(lines.iter().all(|l| l.change_type == ChangeType::Equal));
    assert!(find_hunk_starts(&lines).is_empty());
}

#[test]
fn empty_old_side_is_all_inserts() {
    let lines = compute_side_by_side("", "a\nb\n", 4);
    assert_eq!(lines.len(), 2);
    assert!(lines.iter().all(|l| l.change_type == ChangeType::Insert));
    assert_eq!(lines[0].new_line, side(1, "a"));
    assert_eq!(lines[1].new_line, side(2, "b"));
    let d = FileDiff::new("f".to_string(), String::new(), "a\nb\n".to_string());
    assert_eq!(d.status, FileStatus::Added);
}

#[test]
fn empty_new_side_is_all_deletes() {
    let lines = compute_side_by_side("a\nb\n", "", 4);
    assert_eq!(lines.len(), 2);
    assert!(lines.iter().all(|l| l.change_type == ChangeType::Delete));
    let d = FileDiff::new("f".to_string(), "a\nb\n".to_string(), String::new());
    assert_eq!(d.status, FileStatus::Deleted);
    let m = FileDiff::new("f".to_string(), "a".to_string(), "b".to_string());
    assert_eq!(m.status, FileStatus::Modified);
}

#[test]
fn every_line_appears_once_on_its_side() {
    let old = "one\ntwo\nthree\nfour\nfive\n";
    let new = "zero\none\nthree\n3.5\nfour\nsix\nseven\n";
    let lines = compute_side_by_side(old, new, 4);
    let olds: Vec<usize> = lines.iter().filter_map(|l| l.old_line.as_ref().map(|p| p.0)).collect();
    let news: Vec<usize> = lines.iter().filter_map(|l| l.new_line.as_ref().map(|p| p.0)).collect();
    assert_eq!(olds, vec![1, 2, 3, 4, 5]);
    assert_eq!(news, vec![1, 2, 3, 4, 5, 6, 7]);
}

#[test]
fn surplus_deletions_follow_the_pairs() {
    let lines = compute_side_by_side("a\nb\nc\n", "x\n", 4);
    let expected = vec![
        DiffLine { old_line: side(1, "a"), new_line: side(1, "x"), change_type: ChangeType::Modified },
        DiffLine { old_line: side(2, "b"), new_line: None, change_type: ChangeType::Delete },
        DiffLine { old_line: side(3, "c"), new_line: None, change_type: ChangeType::Delete },
    ];
    assert_eq!(lines, expected);
}

#[test]
fn surplus_insertions_follow_the_pairs() {
    let lines = compute_side_by_side("k\na\nk2\n", "k\nx\ny\nk2\n", 4);
    let kinds: Vec<ChangeType> = lines.iter().map(|l| l.change_type).collect();
    assert_eq!(
        kinds,
        vec![ChangeType::Equal, ChangeType::Modified, ChangeType::Insert, ChangeType::Equal]
    );
    assert_eq!(lines[2].new_line, side(3, "y"));
    assert_eq!(find_hunk_starts(&lines), vec![1]);
}

#[test]
fn two_hunks_are_found() {
    let lines = compute_side_by_side("a\nb\nc\nd\ne\n", "a\nB\nc\nd\nE\n", 4);
    assert_eq!(find_hunk_starts(&lines), vec![1, 4]);
}

#[test]
fn tabs_are_expanded() {
    let lines = compute_side_by_side("\tx\n", "\tx\n", 4);
    assert_eq!(lines[0].old_line, side(1, "    x"));
    assert_eq!(expand_tabs_str("a\tb", 2), "a  b");
}

#[test]
fn crlf_lines_are_split() {
    let ls = split_lines("a\r\nb\nc");
    assert_eq!(ls, vec!["a".to_string(), "b".to_string(), "c".to_string()]);
    assert!(split_lines("").is_empty());
    assert_eq!(split_lines("\n"), vec![String::new()]);
}

#[test]
fn line_stats_count_modified_twice() {
    let lines = compute_side_by_side("a\nb\nc\n", "a\nx\nc\nd\n", 4);
    let s = compute_line_stats(&lines);
    assert_eq!(s.added, 2);
    assert_eq!(s.removed, 1);
}

#[test]
fn context_lines_precede_the_scroll() {
    let settings = ContextSettings { enabled: true, max_lines: 2 };
    let ctx = compute_context_lines("1\n2\n3\n4\n5\n", 3, &settings, 4);
    assert_eq!(
        ctx,
        vec![
            ContextLine { line_number: 2, content: "2".to_string() },
            ContextLine { line_number: 3, content: "3".to_string() },
        ]
    );
    assert!(compute_context_lines("1\n2\n", 0, &settings, 4).is_empty());
    let off = ContextSettings { enabled: false, max_lines: 2 };
    assert!(compute_context_lines("1\n2\n", 2, &off, 4).is_empty());
    let few = compute_context_lines("1\n2\n", 9, &ContextSettings { enabled: true, max_lines: 5 }, 4);
    assert_eq!(few.len(), 2);
    assert_eq!(few[0].line_number, 1);
}

#[test]
fn tabs_are_expanded_before_comparing() {
    let lines = compute_side_by_side("\tx\n", "    x\n", 4);
    assert_eq!(lines.len(), 1);
    assert_eq!(lines[0].change_type, ChangeType::Equal);
    let other_width = compute_side_by_side("\tx\n", "    x\n", 2);
    assert_eq!(other_width[0].change_type, ChangeType::Modified);
    assert!(find_hunk_starts(&lines).is_empty());
}

#[test]
fn removed_and_added_counts_follow_line_counts() {
    let old = "a\nb\nc\nd\n";
    let new = "a\nc\nx\ny\nz\n";
    let lines = compute_side_by_side(old, new, 4);
    let s = compute_line_stats(&lines);
    let equal = lines.iter().filter(|l| l.change_type == ChangeType::Equal).count();
    assert_eq!(s.removed + equal, 4);
    assert_eq!(s.added + equal, 5);
}

#[test]
fn band_spans_the_longer_context() {
    let settings = ContextSettings { enabled: true, max_lines: 3 };
    let old_ctx = compute_context_lines("1\n2\n", 4, &settings, 4);
    let new_ctx = compute_context_lines("1\n2\n3\n4\n", 4, &settings, 4);
    assert_eq!(band_height(&old_ctx, &new_ctx), 3);
    assert_eq!(band_height(&new_ctx, &old_ctx), 3);
}
