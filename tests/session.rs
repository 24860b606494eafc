use lumen::state::{adjust_scroll_to_line, calc_initial_scroll, AppState};
use lumen::tree::{build_file_tree, SidebarItem};
use lumen::types::{DiffFullscreen, FileDiff, FileStatus};

fn fd(name: &str, old: &str, new: &str) -> FileDiff {
    FileDiff::new(name.to_string(), old.to_string(), new.to_string())
}

fn numbered(n: usize) -> String {
    (1..=n).map(|i| format!("line{}\n", i)).collect()
}

#[test]
fn tree_orders_paths_and_nests_directories() {
    let files = vec![fd("src/b.rs", "x", "y"), fd("a.txt", "", "z"), fd("src/a.rs", "q", "")];
    let items = build_file_tree(&files);
    let expected = vec![
        SidebarItem::File { file_index: 1, name: "a.txt".to_string(), status: FileStatus::Added, depth: 0 },
        SidebarItem::Directory { name: "src".to_string(), depth: 0 },
        SidebarItem::File { file_index: 2, name: "a.rs".to_string(), status: FileStatus::Deleted, depth: 1 },
        SidebarItem::File { file_index: 0, name: "b.rs".to_string(), status: FileStatus::Modified, depth: 1 },
    ];
    assert_eq!(items, expected);
}

#[test]
fn tree_is_the_same_on_each_build() {
    let files = vec![
        fd("z/y/x.rs", "1", "2"),
        fd("z/a.rs", "1", "2"),
        fd("b-c/d.rs", "1", "2"),
        fd("b/c.rs", "1", "2"),
        fd("readme", "1", "2"),
    ];
    let first = build_file_tree(&files);
    let second = build_file_tree(&files);
    assert_eq!(first, second);
    for i in 0..files.len() {
        let n = first
            .iter()
            .filter(|it| matches!(it, SidebarItem::File { file_index, .. } if *file_index == i))
            .count();
        assert_eq!(n, 1);
    }
    // "b/" sorts before "b-c/" because the separator comes first
    assert_eq!(first[0], SidebarItem::Directory { name: "b".to_string(), depth: 0 });
}

#[test]
fn new_session_opens_first_sidebar_file() {
    let files = vec![fd("src/main.rs", "a\n", "b\n"), fd("Cargo.toml", "x\n", "y\n")];
    let st = AppState::new(files);
    assert_eq!(st.current_file, 1);
    assert_eq!(st.sidebar_selected, 0);
    assert_eq!(st.scroll, 0);
    assert!(!st.search_state.is_active());
    assert!(!st.search_state.has_query());
    assert_eq!(st.search_state.match_count(), 0);
    let empty = AppState::new(Vec::new());
    assert_eq!((empty.current_file, empty.sidebar_selected, empty.scroll), (0, 0, 0));
}

#[test]
fn initial_scroll_looks_back_from_first_hunk() {
    let old = numbered(30);
    let new = old.replace("line20\n", "changed\n");
    assert_eq!(calc_initial_scroll(&fd("f", &old, &new), 4), 14);
    assert_eq!(calc_initial_scroll(&fd("f", "a\nb\nc\n", "a\nx\nc\n"), 4), 0);
    assert_eq!(calc_initial_scroll(&fd("f", "same\n", "same\n"), 4), 0);
}

#[test]
fn select_file_resets_view() {
    let old = numbered(30);
    let new = old.replace("line20\n", "changed\n");
    let files = vec![fd("a.rs", "1\n", "2\n"), fd("b.rs", &old, &new)];
    let mut st = AppState::new(files);
    st.h_scroll = 7;
    st.diff_fullscreen = DiffFullscreen::OldOnly;
    st.select_file(1);
    assert_eq!(st.current_file, 1);
    assert_eq!(st.h_scroll, 0);
    assert_eq!(st.scroll, 14);
    assert_eq!(st.scroll, calc_initial_scroll(&st.file_diffs[1], st.settings.tab_width));
    assert_eq!(st.diff_fullscreen, DiffFullscreen::Split);
    assert_eq!(st.sidebar_selected, 1);
}

#[test]
fn reload_unmarks_changed_files_only() {
    let files = vec![fd("bar.rs", "1\n", "2\n"), fd("foo.rs", "1\n", "2\n")];
    let mut st = AppState::new(files);
    st.select_file(0);
    st.toggle_viewed();
    st.select_file(1);
    st.toggle_viewed();
    assert!(st.is_viewed(0) && st.is_viewed(1));
    let again = vec![fd("bar.rs", "1\n", "2\n"), fd("foo.rs", "1\n", "3\n")];
    let changed = vec!["foo.rs".to_string()];
    st.needs_reload = true;
    st.reload(again, Some(&changed));
    assert!(st.is_viewed(0));
    assert!(!st.is_viewed(1));
    assert_eq!(st.current_file, 1);
    assert!(!st.needs_reload);
}

#[test]
fn reload_follows_current_file_by_name() {
    let files = vec![fd("a.rs", "1\n", "2\n"), fd("b.rs", "1\n", "2\n")];
    let mut st = AppState::new(files);
    st.select_file(1);
    st.toggle_viewed();
    let reordered = vec![fd("0.rs", "", "x\n"), fd("b.rs", "1\n", "2\n"), fd("a.rs", "1\n", "2\n")];
    st.reload(reordered, None);
    assert_eq!(st.current_file, 1);
    assert_eq!(st.file_diffs[st.current_file].filename, "b.rs");
    assert!(st.is_viewed(1));
    assert!(!st.is_viewed(2));
    match &st.sidebar_items[st.sidebar_selected] {
        SidebarItem::File { file_index, .. } => assert_eq!(*file_index, 1),
        other => panic!("selected entry is not a file: {:?}", other),
    }
    let gone = vec![fd("c.rs", "1\n", "2\n")];
    st.reload(gone, None);
    assert_eq!(st.current_file, 0);
    st.reload(Vec::new(), None);
    assert_eq!((st.current_file, st.sidebar_selected, st.scroll), (0, 0, 0));
}

#[test]
fn reload_clamps_scroll_to_shorter_file() {
    let long = numbered(40);
    let files = vec![fd("f.rs", &long, &long.replace("line35\n", "x\n"))];
    let mut st = AppState::new(files);
    st.scroll = 25;
    st.h_scroll = 3;
    st.reload(vec![fd("f.rs", "a\n", "b\n")], None);
    assert_eq!(st.scroll, 0);
    assert_eq!(st.h_scroll, 3);
    let files = vec![fd("f.rs", &long, &long.replace("line35\n", "x\n"))];
    st.reload(files, None);
    st.scroll = 12;
    let short = numbered(25);
    st.reload(vec![fd("f.rs", &short, &short)], None);
    assert_eq!(st.scroll, 12);
    st.scroll = 20;
    st.reload(vec![fd("f.rs", &short, &short)], None);
    assert_eq!(st.scroll, 15);
}

#[test]
fn scroll_follows_line_with_margins() {
    assert_eq!(adjust_scroll_to_line(50, 0, 30, 100), 33);
    assert_eq!(adjust_scroll_to_line(5, 20, 30, 100), 0);
    assert_eq!(adjust_scroll_to_line(30, 20, 30, 100), 20);
    assert_eq!(adjust_scroll_to_line(50, 0, 30, 10), 10);
}
