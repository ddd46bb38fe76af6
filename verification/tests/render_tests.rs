use ripdiff::render::{pane_layout, slice_display_name, visible_names, PaneLayout, Rect};

#[test]
fn test_slice_full_name_when_zero_offset() {
    assert_eq!(slice_display_name("hello.txt", 0, 9), "hello.txt");
    assert_eq!(slice_display_name("中文.txt", 0, 8), "中文.txt");
}

#[test]
fn test_slice_max_offset_beyond_length() {
    assert_eq!(slice_display_name("hello.txt", 0, 100), "hello.txt");
    assert_eq!(slice_display_name("hello.txt", 2, 100), "llo.txt");
}

#[test]
fn test_slice_offset_beyond_name_length_returns_empty() {
    assert_eq!(slice_display_name("hello.txt", 50, 60), "");
    assert_eq!(slice_display_name("short", 100, 150), "");
}

#[test]
fn test_slice_offset_equal_to_length_returns_empty() {
    assert_eq!(slice_display_name("hello.txt", 9, 9), "");
}

#[test]
fn test_slice_mid_ascii_name() {
    assert_eq!(slice_display_name("abcdefghij", 3, 7), "defg");
}

#[test]
fn test_slice_unicode_stays_on_char_boundaries() {
    assert_eq!(slice_display_name("中文目录文件.txt", 1, 3), "文目");
    assert_eq!(slice_display_name("日本語", 1, 100), "本語");
}

#[test]
fn test_slice_empty_name() {
    assert_eq!(slice_display_name("", 0, 10), "");
    assert_eq!(slice_display_name("", 5, 5), "");
}

#[test]
fn slice_without_room_shows_one_character() {
    assert_eq!(slice_display_name("abc", 1, 1), "b");
    assert_eq!(slice_display_name("abc", 2, 0), "c");
}

#[test]
fn layout_with_sidebar() {
    let area = Rect { x: 0, y: 0, width: 90, height: 40 };
    let l = pane_layout(area, false);
    assert_eq!(
        l,
        PaneLayout {
            files: Rect { x: 0, y: 0, width: 30, height: 40 },
            new: Rect { x: 30, y: 0, width: 60, height: 20 },
            old: Rect { x: 30, y: 20, width: 60, height: 20 },
        }
    );
}

#[test]
fn layout_without_sidebar() {
    let area = Rect { x: 0, y: 0, width: 91, height: 41 };
    let l = pane_layout(area, true);
    assert_eq!(l.new, Rect { x: 0, y: 0, width: 45, height: 41 });
    assert_eq!(l.old, Rect { x: 45, y: 0, width: 45, height: 41 });
}

#[test]
fn visible_names_cut_each_row() {
    let rows = vec![
        ("/r".to_string(), "  alpha.txt".to_string()),
        ("/r".to_string(), "中文目录".to_string()),
    ];
    assert_eq!(visible_names(&rows, 2, 3), vec!["alp".to_string(), "目录".to_string()]);
}
