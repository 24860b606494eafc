use lumen::git::{
    changed_files_from_output, determine_file_status, load_file_diffs, new_object_name,
    old_object_name, parse_unified_diff, CommitReference, DiffRefs,
};
use lumen::stats::truncate_middle;
use lumen::theme::{init, ThemeMode};
use lumen::types::FileStatus;

#[test]
fn unified_diff_is_read_into_files() {
    let diff = "diff --git a/src/x.rs b/src/x.rs\nindex 1..2 100644\n--- a/src/x.rs\n+++ b/src/x.rs\n@@ -1,3 +1,3 @@\n a\n-b\n+c\n d\n\\ No newline at end of file\ndiff --git a/new.txt b/new.txt\n--- /dev/null\n+++ b/new.txt\n@@ -0,0 +1 @@\n+hello\n";
    let files = parse_unified_diff(diff);
    assert_eq!(files.len(), 2);
    assert_eq!(files[0].filename, "src/x.rs");
    assert_eq!(files[0].old_content, "a\nb\nd\n");
    assert_eq!(files[0].new_content, "a\nc\nd\n");
    assert_eq!(files[0].status, FileStatus::Modified);
    assert_eq!(files[1].filename, "new.txt");
    assert_eq!(files[1].old_content, "");
    assert_eq!(files[1].new_content, "hello\n");
    assert_eq!(files[1].status, FileStatus::Added);
    assert!(parse_unified_diff("").is_empty());
}

#[test]
fn blank_contents_count_as_missing() {
    assert_eq!(determine_file_status("  \n\t", "x"), FileStatus::Added);
    assert_eq!(determine_file_status("x", "\n"), FileStatus::Deleted);
    assert_eq!(determine_file_status("", ""), FileStatus::Modified);
    assert_eq!(determine_file_status("a", "b"), FileStatus::Modified);
}

#[test]
fn fetched_files_become_diffs() {
    let fetched = vec![
        ("a".to_string(), String::new(), "x".to_string()),
        ("b".to_string(), "y".to_string(), String::new()),
        ("c".to_string(), " ".to_string(), "y".to_string()),
    ];
    let d = load_file_diffs(fetched);
    let st: Vec<FileStatus> = d.iter().map(|f| f.status).collect();
    assert_eq!(st, vec![FileStatus::Added, FileStatus::Deleted, FileStatus::Modified]);
    assert_eq!(d[2].old_content, " ");
}

#[test]
fn changed_paths_are_merged_once() {
    let outs = vec!["b.rs\na.rs\n".to_string(), "a.rs\n\nc.rs\n".to_string(), "b.rs\n".to_string()];
    assert_eq!(changed_files_from_output(&outs, None), vec!["b.rs", "a.rs", "c.rs"]);
    let filter = vec!["c.rs".to_string(), "b.rs".to_string()];
    assert_eq!(changed_files_from_output(&outs, Some(&filter)), vec!["b.rs", "c.rs"]);
}

#[test]
fn refs_name_the_objects_to_show() {
    let single = DiffRefs::from_options(&Some(CommitReference::Single("abc".to_string())), &String::new());
    assert_eq!(old_object_name("f.rs", &single), "abc^:f.rs");
    assert_eq!(new_object_name("f.rs", &single), Some("abc:f.rs".to_string()));
    let dots = CommitReference::TripleDots { from: "main".to_string(), to: "feat".to_string() };
    let range = DiffRefs::from_options(&Some(dots), &"base1".to_string());
    assert_eq!(old_object_name("f.rs", &range), "base1:f.rs");
    assert_eq!(new_object_name("f.rs", &range), Some("feat:f.rs".to_string()));
    let wt = DiffRefs::from_options(&None, &String::new());
    assert_eq!(old_object_name("f.rs", &wt), "HEAD:f.rs");
    assert_eq!(new_object_name("f.rs", &wt), None);
}

#[test]
fn long_names_are_cut_in_the_middle() {
    assert_eq!(truncate_middle("abcdefghij", 7), "ab...ij");
    assert_eq!(truncate_middle("abcdefghij", 20), "abcdefghij");
    assert_eq!(truncate_middle("abcdefghij", 3), "abc");
    assert_eq!(truncate_middle("ééééééé", 6), "é...é");
}

#[test]
fn theme_mode_is_dark() {
    assert_eq!(ThemeMode::detect(), ThemeMode::Dark);
    assert_eq!(init(), ThemeMode::Dark);
}

#[test]
fn only_latest_refetch_is_applied() {
    let mut t = lumen::watch::RefetchTracker::new();
    let first = t.begin();
    let second = t.begin();
    assert_eq!((first, second), (1, 2));
    assert!(!t.is_current(first));
    assert!(t.is_current(second));
}
