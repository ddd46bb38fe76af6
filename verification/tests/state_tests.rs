use ripdiff::state::{get_joined_paths, initial_file_display, DirMap, Key, ListSelection, TuiState};

fn dir_map(entries: &[(&str, &[&str])]) -> DirMap {
    let mut m = DirMap::new();
    for (dir, children) in entries {
        m.insert(dir.to_string(), children.iter().map(|c| c.to_string()).collect());
    }
    m
}

fn rows(entries: &[(&str, &str)]) -> Vec<(String, String)> {
    entries.iter().map(|(a, b)| (a.to_string(), b.to_string())).collect()
}

fn strings(v: &[&str]) -> Vec<String> {
    v.iter().map(|s| s.to_string()).collect()
}

fn make_state() -> TuiState {
    TuiState {
        old_root: "/root".to_string(),
        new_root: "/root".to_string(),
        current_file: None,
        old_files: DirMap::new(),
        new_files: DirMap::new(),
        file_display: Vec::new(),
        bottom_status: String::new(),
        file_name_offset: 0,
        file_scroll_offset: 0,
        state: ListSelection::default(),
        exit: false,
        open_files: Vec::new(),
        hide_sidebar: false,
    }
}

fn browser(
    old_root: &str,
    new_root: &str,
    old_files: DirMap,
    new_files: DirMap,
    file_display: Vec<(String, String)>,
    open_files: Vec<String>,
) -> TuiState {
    TuiState {
        old_root: old_root.to_string(),
        new_root: new_root.to_string(),
        current_file: None,
        old_files,
        new_files,
        file_display,
        bottom_status: String::new(),
        file_name_offset: 0,
        file_scroll_offset: 0,
        state: ListSelection::default(),
        exit: false,
        open_files,
        hide_sidebar: false,
    }
}

#[test]
fn state_test_get_joined_paths_empty() {
    let old = DirMap::new();
    let new = DirMap::new();
    let result = get_joined_paths("/nonexistent", &old, &new);
    assert!(result.is_empty());
}

#[test]
fn state_test_get_joined_paths_merges_both_sides() {
    let old = dir_map(&[("/dir", &["a.txt", "b.txt"])]);
    let new = dir_map(&[("/dir", &["b.txt", "c.txt"])]);
    let result = get_joined_paths("/dir", &old, &new);
    assert_eq!(result, vec!["c.txt", "b.txt", "b.txt", "a.txt"]);
}

#[test]
fn state_test_get_joined_paths_old_only() {
    let old = dir_map(&[("/dir", &["x.txt"])]);
    let new = DirMap::new();
    let result = get_joined_paths("/dir", &old, &new);
    assert_eq!(result, vec!["x.txt"]);
}

#[test]
fn state_test_get_joined_paths_new_only() {
    let old = DirMap::new();
    let new = dir_map(&[("/dir", &["y.txt"])]);
    let result = get_joined_paths("/dir", &old, &new);
    assert_eq!(result, vec!["y.txt"]);
}

#[test]
fn test_get_joined_paths_both_empty_returns_none() {
    let old = DirMap::new();
    let new = DirMap::new();
    let result = get_joined_paths("/dir", &old, &new);
    assert!(result.is_empty());
}

#[test]
fn test_new_hide_sidebar_true_sets_current_file() {
    let state = TuiState::new(
        "/root".into(),
        "/root".into(),
        DirMap::new(),
        DirMap::new(),
        vec![("/root".into(), "file.txt".into())],
        "status".into(),
        true,
    );
    assert_eq!(state.current_file, Some("/root/file.txt".to_string()));
}

#[test]
fn test_new_hide_sidebar_false_no_current_file() {
    let state = TuiState::new(
        "/root".into(),
        "/root".into(),
        DirMap::new(),
        DirMap::new(),
        vec![("/root".into(), "file.txt".into())],
        "status".into(),
        false,
    );
    assert_eq!(state.current_file, None);
}

#[test]
fn test_new_hide_sidebar_true_empty_display() {
    let state = TuiState::new(
        "/root".into(),
        "/root".into(),
        DirMap::new(),
        DirMap::new(),
        vec![],
        "status".into(),
        true,
    );
    assert_eq!(state.current_file, None);
}

#[test]
fn test_new_default_fields() {
    let state = TuiState::new(
        "/a".into(),
        "/b".into(),
        DirMap::new(),
        DirMap::new(),
        vec![],
        "s".into(),
        false,
    );
    assert_eq!(state.file_name_offset, 0);
    assert_eq!(state.file_scroll_offset, 0);
    assert!(!state.exit);
    assert!(state.open_files.is_empty());
    assert_eq!(state.old_root, "/a");
    assert_eq!(state.new_root, "/b");
}

#[test]
fn test_close_dir_recursive_nesting() {
    let mut state = make_state();
    state.old_files = dir_map(&[("/a", &["b"]), ("/a/b", &["c"])]);
    state.open_files = strings(&["/a", "/a/b", "/a/b/c"]);
    state.file_display = rows(&[("/", "a"), ("/a", "  b"), ("/a/b", "    c")]);
    let children_of_a = strings(&["b"]);

    state.close_dir("/a", &children_of_a);

    assert!(!state.open_files.contains(&"/a".to_string()));
    assert!(!state.open_files.contains(&"/a/b".to_string()));
    assert!(!state.open_files.contains(&"/a/b/c".to_string()));
    assert_eq!(state.file_display.len(), 1);
    assert_eq!(state.file_display[0].0, "/");
}

#[test]
fn test_close_dir_partial_recursive_skip_not_open() {
    let mut state = make_state();
    state.old_files = dir_map(&[("/a", &["b"])]);
    state.open_files = strings(&["/a", "/a/b"]);
    state.file_display = rows(&[("/", "a"), ("/a", "  b"), ("/a", "  c")]);
    let children_of_a = strings(&["b", "c"]);

    state.close_dir("/a", &children_of_a);

    assert!(!state.open_files.contains(&"/a".to_string()));
    assert!(!state.open_files.contains(&"/a/b".to_string()));
    assert_eq!(state.file_display.len(), 1);
}

#[test]
fn state_test_close_dir_no_children_noop() {
    let mut state = make_state();
    state.open_files = strings(&["/root"]);
    state.file_display = rows(&[("/root", "file")]);
    let children: Vec<String> = vec![];

    state.close_dir("/root", &children);

    assert!(state.open_files.is_empty());
    assert_eq!(state.file_display.len(), 1);
    assert_eq!(state.file_display[0].1, "file");
}

#[test]
fn state_test_close_dir_does_not_affect_same_named_entries_from_other_paths() {
    let mut state = make_state();
    state.open_files = strings(&["/reorg", "/reorg/same_name", "/same_name", "/same_name/same_name"]);
    state.file_display = rows(&[
        ("/", "reorg"),
        ("/reorg", "  same_name"),
        ("/", "same_name"),
        ("/same_name", "  same_name"),
    ]);
    let children = strings(&["same_name"]);

    state.close_dir("/reorg", &children);

    assert!(!state.open_files.contains(&"/reorg".to_string()));
    assert!(!state.open_files.contains(&"/reorg/same_name".to_string()));
    assert!(state.open_files.contains(&"/same_name".to_string()));
    assert!(state.open_files.contains(&"/same_name/same_name".to_string()));
}

#[test]
fn state_test_open_file_or_dir_opens_directory() {
    let mut state = browser(
        "/root",
        "/root",
        dir_map(&[("/root", &["dir"]), ("/root/dir", &["a.txt", "b.txt"])]),
        DirMap::new(),
        rows(&[("/root", "dir")]),
        Vec::new(),
    );
    state.state.select_first();

    state.open_file_or_dir();

    assert!(state.open_files.contains(&"/root/dir".to_string()));
    assert!(state.file_display.len() >= 3);
    assert!(state.file_display.iter().any(|(p, _)| p == "/root/dir"));
}

#[test]
fn state_test_open_file_or_dir_opens_file_when_no_children() {
    let mut state = browser(
        "/root",
        "/root",
        dir_map(&[("/root", &["file.txt"])]),
        DirMap::new(),
        rows(&[("/root", "file.txt")]),
        Vec::new(),
    );
    state.state.select_first();

    state.open_file_or_dir();

    assert_eq!(state.current_file, Some("/root/file.txt".to_string()));
}

#[test]
fn state_test_open_file_or_dir_closes_opened_directory() {
    let mut state = browser(
        "/old",
        "/new",
        dir_map(&[("/old", &["dir"]), ("/old/dir", &["file.txt"])]),
        DirMap::new(),
        rows(&[("/old", "dir"), ("/old/dir", "  file.txt")]),
        strings(&["/old/dir"]),
    );
    state.state.select_first();

    state.open_file_or_dir();

    assert!(!state.open_files.contains(&"/old/dir".to_string()));
}

#[test]
fn test_open_file_or_dir_no_selection_defaults_to_first() {
    let mut state = browser(
        "/root",
        "/root",
        dir_map(&[("/root", &["a.txt"])]),
        DirMap::new(),
        rows(&[("/root", "a.txt")]),
        Vec::new(),
    );

    state.open_file_or_dir();

    assert_eq!(state.current_file, Some("/root/a.txt".to_string()));
}

#[test]
fn test_open_file_or_dir_empty_file_display() {
    let mut state = make_state();

    state.open_file_or_dir();

    assert_eq!(state.current_file, Some("/".to_string()));
}

#[test]
fn test_open_file_or_dir_children_from_both_sides_deduped() {
    let mut state = browser(
        "/root",
        "/root",
        dir_map(&[("/root", &["dir"]), ("/root/dir", &["shared.txt", "old_only.txt"])]),
        dir_map(&[("/root/dir", &["shared.txt", "new_only.txt"])]),
        rows(&[("/root", "dir")]),
        Vec::new(),
    );
    state.state.select_first();

    state.open_file_or_dir();

    assert!(state.open_files.contains(&"/root/dir".to_string()));
    let shared_entries: Vec<&(String, String)> =
        state.file_display.iter().filter(|(_, f)| f.trim() == "shared.txt").collect();
    assert_eq!(shared_entries.len(), 1, "shared.txt should be deduped");
}

#[test]
fn test_open_file_or_dir_multi_level_open_close() {
    let mut state = browser(
        "/root",
        "/root",
        dir_map(&[("/root", &["a"]), ("/root/a", &["b"]), ("/root/a/b", &["c.txt"])]),
        DirMap::new(),
        rows(&[("/root", "a")]),
        Vec::new(),
    );
    state.state.select_first();

    state.open_file_or_dir();
    assert!(state.open_files.contains(&"/root/a".to_string()));

    state.state.select_next();

    state.open_file_or_dir();
    assert!(state.open_files.contains(&"/root/a/b".to_string()));

    state.state.select_previous();

    state.open_file_or_dir();
    assert!(!state.open_files.contains(&"/root/a".to_string()));
    assert!(!state.open_files.contains(&"/root/a/b".to_string()));
}

#[test]
fn test_open_file_or_dir_root_from_new_side() {
    let mut state = browser(
        "/old",
        "/new",
        DirMap::new(),
        dir_map(&[("/new", &["file.txt"])]),
        rows(&[("/new", "file.txt")]),
        Vec::new(),
    );
    state.state.select_first();

    state.open_file_or_dir();

    assert_eq!(state.current_file, Some("/new/file.txt".to_string()));
}

#[test]
fn opening_then_closing_restores_the_list() {
    let mut state = browser(
        "/root",
        "/root",
        dir_map(&[("/root", &["d", "e"]), ("/root/d", &["x", "y", "z"])]),
        DirMap::new(),
        rows(&[("/root", "e"), ("/root", "d")]),
        Vec::new(),
    );
    state.state.select(Some(1));
    let before = state.file_display.clone();
    state.open_file_or_dir();
    assert_eq!(
        state.file_display,
        rows(&[
            ("/root", "e"),
            ("/root", "d"),
            ("/root/d", "  x"),
            ("/root/d", "  y"),
            ("/root/d", "  z"),
        ])
    );
    assert_eq!(state.open_files, strings(&["/root/d"]));
    state.open_file_or_dir();
    assert_eq!(state.file_display, before);
    assert!(state.open_files.is_empty());
}

#[test]
fn opened_rows_are_indented_by_depth_below_the_roots() {
    let mut state = browser(
        "/old",
        "/new",
        dir_map(&[("/old/a/b", &["f"])]),
        DirMap::new(),
        rows(&[("/old/a", "  b")]),
        Vec::new(),
    );
    state.open_file_or_dir();
    assert_eq!(state.file_display[1], ("/old/a/b".to_string(), "    f".to_string()));
}

#[test]
fn keys_move_scroll_and_quit() {
    let mut state = browser(
        "/root",
        "/root",
        dir_map(&[("/root", &["f"])]),
        DirMap::new(),
        rows(&[("/root", "f")]),
        Vec::new(),
    );
    state.handle_key(Key::Down);
    assert_eq!(state.state.selected(), Some(0));
    state.handle_key(Key::Down);
    assert_eq!(state.state.selected(), Some(1));
    state.handle_key(Key::Up);
    assert_eq!(state.state.selected(), Some(0));
    state.handle_key(Key::Up);
    assert_eq!(state.state.selected(), Some(0));
    state.handle_key(Key::Right);
    state.handle_key(Key::Right);
    state.handle_key(Key::Left);
    assert_eq!(state.file_name_offset, 1);
    state.handle_key(Key::Left);
    state.handle_key(Key::Left);
    assert_eq!(state.file_name_offset, 0);
    state.handle_key(Key::Char('j'));
    state.handle_key(Key::PageDown);
    state.handle_key(Key::Char('k'));
    assert_eq!(state.file_scroll_offset, 1);
    state.handle_key(Key::Tab);
    assert!(state.hide_sidebar);
    state.handle_key(Key::Enter);
    assert_eq!(state.file_scroll_offset, 0);
    assert_eq!(state.current_file, Some("/root/f".to_string()));
    state.handle_key(Key::Char('q'));
    assert!(!state.exit);
    state.handle_key(Key::Esc);
    assert!(state.exit);
}

#[test]
fn previous_from_nothing_selects_the_last_possible_row() {
    let mut s = ListSelection::default();
    s.select_previous();
    assert_eq!(s.selected(), Some(usize::MAX));
    s.select(None);
    assert_eq!(s.offset, 0);
}

#[test]
fn can_open_selected_past_the_end() {
    let mut state = browser(
        "/",
        "/",
        dir_map(&[("/", &["x"])]),
        DirMap::new(),
        Vec::new(),
        Vec::new(),
    );
    assert!(!state.can_open_selected());
    state.file_display = rows(&[("", "")]);
    assert!(state.can_open_selected());
}

#[test]
fn initial_rows_are_deduplicated_and_descending() {
    let old = dir_map(&[("/o", &["b", "a"])]);
    let new = dir_map(&[("/n", &["a", "c"])]);
    let display = initial_file_display("/o", &old, "/n", &new);
    assert_eq!(display, rows(&[("/o", "b"), ("/o", "a"), ("/n", "c")]));
}
