use ripdiff::diff::LineStyle;
use ripdiff::engine::{close_dir, get_file_diff, get_joined_paths, open_file_or_dir};
use ripdiff::state::{DirMap, Key, ListSelection};
use ripdiff::tui::{name_bytes_window, TuiState};

fn dir_map(entries: &[(&str, &[&str])]) -> DirMap {
    let mut m = DirMap::new();
    for (dir, children) in entries {
        m.insert(dir.to_string(), children.iter().map(|c| c.to_string()).collect());
    }
    m
}

fn rows(entries: &[(&str, &str)]) -> Vec<(String, String)> {
    entries.iter().map(|(a, b)| (a.to_string(), b.to_string())).collect()
}

fn strings(v: &[&str]) -> Vec<String> {
    v.iter().map(|s| s.to_string()).collect()
}

fn browser(
    old_root: &str,
    new_root: &str,
    old_files: DirMap,
    file_display: Vec<(String, String)>,
    open_files: Vec<String>,
) -> TuiState {
    TuiState {
        old_root: old_root.to_string(),
        new_root: new_root.to_string(),
        current_file: None,
        old_files,
        new_files: DirMap::new(),
        file_display,
        bottom_status: String::new(),
        file_name_offset: 0,
        file_scroll_offset: 0,
        state: ListSelection::default(),
        exit: false,
        open_files,
    }
}

#[test]
fn engine_test_get_joined_paths_empty() {
    let old = DirMap::new();
    let new = DirMap::new();
    let result = get_joined_paths("/nonexistent", &old, &new);
    assert!(result.is_empty());
}

#[test]
fn engine_test_get_joined_paths_merges_both_sides() {
    let old = dir_map(&[("/dir", &["a.txt", "b.txt"])]);
    let new = dir_map(&[("/dir", &["b.txt", "c.txt"])]);
    let result = get_joined_paths("/dir", &old, &new);
    // Function merges both sides, sorts descending, but does NOT dedup
    assert_eq!(result, vec!["c.txt", "b.txt", "b.txt", "a.txt"]);
}

#[test]
fn engine_test_get_joined_paths_old_only() {
    let old = dir_map(&[("/dir", &["x.txt"])]);
    let new = DirMap::new();
    let result = get_joined_paths("/dir", &old, &new);
    assert_eq!(result, vec!["x.txt"]);
}

#[test]
fn engine_test_get_joined_paths_new_only() {
    let old = DirMap::new();
    let new = dir_map(&[("/dir", &["y.txt"])]);
    let result = get_joined_paths("/dir", &old, &new);
    assert_eq!(result, vec!["y.txt"]);
}

#[test]
fn engine_test_close_dir_does_not_affect_same_named_entries_from_other_paths() {
    let mut open_files = strings(&["/reorg", "/reorg/same_name", "/same_name", "/same_name/same_name"]);
    let mut file_display = rows(&[
        ("/", "reorg"),
        ("/reorg", "  same_name"),
        ("/", "same_name"),
        ("/same_name", "  same_name"),
    ]);
    let old = DirMap::new();
    let new = DirMap::new();
    let children = strings(&["same_name"]);

    close_dir(&mut open_files, "/reorg", &children, &old, &new, &mut file_display);

    assert!(!open_files.contains(&"/reorg".to_string()));
    assert!(!open_files.contains(&"/reorg/same_name".to_string()));
    assert!(open_files.contains(&"/same_name".to_string()));
    assert!(open_files.contains(&"/same_name/same_name".to_string()));

    let remaining_parents: Vec<&str> = file_display.iter().map(|(p, _)| p.as_str()).collect();
    assert!(remaining_parents.contains(&"/"), "root entries should survive");
    assert!(remaining_parents.contains(&"/same_name"), "other path entries should survive");
    assert!(!remaining_parents.contains(&"/reorg"), "/reorg entries should be removed");
}

#[test]
fn test_close_dir_removes_only_own_children() {
    let mut open_files = strings(&["/other", "/other/same_name", "/same_name", "/same_name/same_name"]);
    let mut file_display = rows(&[
        ("/root", "other/same_name"),
        ("/root", "other"),
        ("/root", "same_name"),
        ("/root", "same_name/same_name"),
    ]);
    let old = DirMap::new();
    let new = DirMap::new();
    let children = strings(&["/other/same_name", "/same_name/same_name"]);

    close_dir(&mut open_files, "/same_name/same_name", &children, &old, &new, &mut file_display);

    assert!(!open_files.contains(&"/same_name/same_name".to_string()));
    assert!(open_files.contains(&"/same_name".to_string()));
    assert!(!file_display.is_empty());
}

#[test]
fn engine_test_close_dir_no_children_noop() {
    let mut open_files: Vec<String> = strings(&["/root"]);
    let mut file_display = rows(&[("/root", "file")]);
    let old = DirMap::new();
    let new = DirMap::new();
    let children: Vec<String> = vec![];

    close_dir(&mut open_files, "/root", &children, &old, &new, &mut file_display);

    assert!(open_files.is_empty());
    assert_eq!(file_display.len(), 1);
    assert_eq!(file_display[0].1, "file");
}

#[test]
fn engine_test_open_file_or_dir_opens_directory() {
    let mut state = browser(
        "/root",
        "/root",
        dir_map(&[("/root", &["dir"]), ("/root/dir", &["a.txt", "b.txt"])]),
        rows(&[("/root", "dir")]),
        Vec::new(),
    );
    state.state.select_first();

    open_file_or_dir(&mut state);

    assert!(state.open_files.contains(&"/root/dir".to_string()));
    assert!(state.file_display.len() >= 3);
    assert!(state.file_display.iter().any(|(p, _)| p == "/root/dir"));
}

#[test]
fn engine_test_open_file_or_dir_opens_file_when_no_children() {
    let mut state = browser(
        "/root",
        "/root",
        dir_map(&[("/root", &["file.txt"])]),
        rows(&[("/root", "file.txt")]),
        Vec::new(),
    );
    state.state.select_first();

    open_file_or_dir(&mut state);

    assert_eq!(state.current_file, Some("/root/file.txt".to_string()));
}

#[test]
fn engine_test_open_file_or_dir_closes_opened_directory() {
    let mut state = browser(
        "/old",
        "/new",
        dir_map(&[("/old", &["dir"]), ("/old/dir", &["file.txt"])]),
        rows(&[("/old", "dir"), ("/old/dir", "  file.txt")]),
        strings(&["/old/dir"]),
    );
    state.state.select_first();

    open_file_or_dir(&mut state);

    // close_dir should remove /old/dir from open_files and
    // remove the indented child entry from file_display
    assert!(!state.open_files.contains(&"/old/dir".to_string()));
}

#[test]
fn legacy_diff_scrolls_with_the_browser() {
    let mut state = browser("test_files/old", "test_files/new", DirMap::new(), Vec::new(), Vec::new());
    state.file_scroll_offset = 5;
    let content: String = (1..=20).map(|i| format!("{:03}\n", i)).collect();
    let (old_p, new_p) = get_file_diff(&state, &content, &content, 10);
    assert_eq!(old_p.len(), 10);
    assert_eq!(old_p[0].text, "006");
    assert_eq!(
        old_p.iter().map(|l| l.text.clone()).collect::<Vec<_>>(),
        new_p.iter().map(|l| l.text.clone()).collect::<Vec<_>>()
    );
}

#[test]
fn legacy_diff_marks_changes() {
    let state = browser("o", "n", DirMap::new(), Vec::new(), Vec::new());
    let (old_p, new_p) = get_file_diff(&state, "a\nb\nc\n", "a\nB\nc\n", 20);
    assert!(old_p.iter().any(|l| l.style == LineStyle::Removed && l.text == "b\n"));
    assert!(new_p.iter().any(|l| l.style == LineStyle::Added && l.text == "B\n"));
}

#[test]
fn legacy_keys_have_no_sidebar_switch() {
    let mut state = browser("/r", "/r", DirMap::new(), Vec::new(), Vec::new());
    state.handle_key(Key::Tab);
    state.handle_key(Key::PageDown);
    assert_eq!(state.file_scroll_offset, 1);
    state.handle_key(Key::Esc);
    assert!(state.exit);
}

#[test]
fn legacy_name_window_cuts_ascii_bytes() {
    assert_eq!(name_bytes_window("hello.txt", 2, 5), Some("llo"));
    assert_eq!(name_bytes_window("hello.txt", 0, 100), Some("hello.txt"));
}

#[test]
fn legacy_name_window_past_the_end_is_empty() {
    assert_eq!(name_bytes_window("abc", 7, 9), Some(""));
}

#[test]
fn legacy_name_window_refuses_to_cut_inside_a_character() {
    assert_eq!(name_bytes_window("é.txt", 1, 4), None);
    assert_eq!(name_bytes_window("é.txt", 0, 2), Some("é"));
}

#[test]
fn legacy_name_window_refuses_a_backwards_range() {
    assert_eq!(name_bytes_window("abcdef", 4, 1), None);
}

#[test]
fn legacy_diff_shows_the_lines_after_the_last_change() {
    let state = browser("o", "n", DirMap::new(), Vec::new(), Vec::new());
    let old_content: String = (1..=12).map(|i| format!("{:03}\n", i)).collect();
    let new_content = old_content.replace("002\n", "two\n");
    let (old_p, new_p) = get_file_diff(&state, &old_content, &new_content, 100);
    assert_eq!(old_p.len(), new_p.len());
    assert!(old_p.iter().any(|l| l.text == "012"));
    assert!(new_p.iter().any(|l| l.text == "012"));
}
