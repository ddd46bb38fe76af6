use ripdiff::diff::{
    change_region_offsets, compute_styled_lines, diff_file_paths, files_to_read, get_file_diff, DiffCache,
    LineStyle, OwnedHunk, OwnedLineType, StyledLine,
};

fn first_row_text(rows: &[StyledLine]) -> String {
    rows.first().map(|l| l.text.clone()).unwrap_or_default()
}

fn numbered(n: usize, fmt: &dyn Fn(usize) -> String) -> String {
    (0..n).map(|i| fmt(i + 1)).collect()
}

#[test]
fn test_change_region_offsets_merged_hunk_multiple_regions() {
    let hunks = vec![OwnedHunk {
        old_start: 1,
        lines: vec![
            (OwnedLineType::Context, "l1".into()),
            (OwnedLineType::Delete, "l2".into()),
            (OwnedLineType::Insert, "l2'".into()),
            (OwnedLineType::Context, "l3".into()),
            (OwnedLineType::Context, "l4".into()),
            (OwnedLineType::Delete, "l5".into()),
            (OwnedLineType::Insert, "l5'".into()),
            (OwnedLineType::Context, "l6".into()),
            (OwnedLineType::Insert, "a".into()),
            (OwnedLineType::Insert, "b".into()),
        ],
    }];
    assert_eq!(change_region_offsets(&hunks), vec![1, 4, 6]);
}

#[test]
fn test_change_region_offsets_insert_padding_shifts_later_region() {
    // Old: l1..l45. One change replaces l2 with two lines (an insert),
    // another change hits l40. The insert adds two padding rows on the old
    // side, so l40's change (raw 0-based index 39) lands at display row 41.
    let hunks = vec![
        OwnedHunk {
            old_start: 1,
            lines: vec![
                (OwnedLineType::Context, "l1".into()),
                (OwnedLineType::Delete, "l2".into()),
                (OwnedLineType::Insert, "l2'".into()),
                (OwnedLineType::Insert, "extra".into()),
            ],
        },
        OwnedHunk {
            old_start: 37,
            lines: vec![
                (OwnedLineType::Context, "l37".into()),
                (OwnedLineType::Context, "l38".into()),
                (OwnedLineType::Context, "l39".into()),
                (OwnedLineType::Delete, "l40".into()),
            ],
        },
    ];
    assert_eq!(change_region_offsets(&hunks), vec![1, 40]);
}

#[test]
fn test_unchanged_file_scrolls_old_pane() {
    let content: String = numbered(40, &|i| format!("Line {:03}: scrolling test line\n", i));
    let old_root = "/tmp/old";
    let new_root = "/tmp/new";
    let path = format!("{}/same.txt", old_root);
    let mut cache = DiffCache::new();
    assert!(cache.load(&path, content.clone(), content.clone()));
    let (old_p, _new_p) = get_file_diff(&path, 5, 10, &cache).unwrap();
    let rendered: String = old_p.iter().map(|l| l.text.clone()).collect::<Vec<_>>().join("\n");
    assert!(rendered.contains("Line 006"), "scrolled pane should start at line 006");
    assert!(!rendered.contains("Line 001"), "scrolled pane should not show the first line");
    let _ = new_root;
}

#[test]
fn test_jump_offset_puts_change_on_first_line_three_context() {
    let old_content: String = numbered(10, &|i| format!("Line {:03}\n", i));
    let new_content = old_content.replacen("Line 005\n", "Line 005 CHANGED\n", 1);
    let path = "/tmp/old/f.txt";
    let mut cache = DiffCache::new();
    assert!(cache.load(path, old_content, new_content));
    let entry = cache.get(path).unwrap();
    let target = change_region_offsets(&entry.hunks)[0];
    assert_eq!(target, 4, "change is 0-based line 4 (line 005)");
    let (old_p, _new_p) = get_file_diff(path, target, 10, &cache).unwrap();
    assert!(
        first_row_text(&old_p).starts_with("Line 005"),
        "old pane first row should be the changed line, got: {}",
        first_row_text(&old_p)
    );
}

#[test]
fn test_later_region_after_insert_puts_change_on_first_line() {
    let old_content: String = numbered(20, &|i| format!("Line {:03}\n", i));
    let new_content = "Line 001\nLine 002\nLine 003 CHANGED\nINSERTED\nLine 004\nLine 005\n\
         Line 006\nLine 007\nLine 008\nLine 009\nLine 010\nLine 011\nLine 012\n\
         Line 013\nLine 014\nLine 015 CHANGED\nLine 016\nLine 017\nLine 018\n\
         Line 019\nLine 020\n"
        .to_string();
    let path = "/tmp/old/f.txt";
    let mut cache = DiffCache::new();
    assert!(cache.load(path, old_content, new_content));
    let offsets = cache.get(path).unwrap().change_region_offsets.clone();
    assert_eq!(offsets.len(), 2, "expected two change regions, got {offsets:?}");
    let (old_p, _new_p) = get_file_diff(path, offsets[1], 20, &cache).unwrap();
    assert!(
        first_row_text(&old_p).starts_with("Line 015"),
        "later change should render on the first row at offset {}, got: {}",
        offsets[1],
        first_row_text(&old_p)
    );
}

#[test]
fn change_regions_are_all_reachable_in_turn() {
    let old_content: String = numbered(60, &|i| format!("Line {:03}\n", i));
    let new_content = old_content
        .replacen("Line 005\n", "Line 005 X\n", 1)
        .replacen("Line 025\n", "Line 025 X\n", 1)
        .replacen("Line 045\n", "", 1);
    let path = "f.txt";
    let mut cache = DiffCache::new();
    assert!(cache.load(path, old_content, new_content));
    let offsets = cache.get(path).unwrap().change_region_offsets.clone();
    assert_eq!(offsets.len(), 3);
    let mut scroll = 0;
    for expected in &offsets {
        let target = offsets.iter().copied().find(|o| *o > scroll);
        assert_eq!(target, Some(*expected));
        scroll = target.unwrap();
    }
    assert!(offsets.windows(2).all(|w| w[0] < w[1]));
}

#[test]
fn jump_shows_removed_and_added_rows_first() {
    let old_content = "a\nb\nc\nd\ne\nf\ng\nh\n".to_string();
    let new_content = "a\nb\nc\nD\ne\nf\ng\nh\n".to_string();
    let mut cache = DiffCache::new();
    assert!(cache.load("x", old_content, new_content));
    let offsets = cache.get("x").unwrap().change_region_offsets.clone();
    assert_eq!(offsets, vec![3]);
    let (old_p, new_p) = get_file_diff("x", 3, 2, &cache).unwrap();
    assert_eq!(old_p[0].style, LineStyle::Removed);
    assert_eq!(old_p[0].text, "d\n");
    assert_eq!(new_p[0].style, LineStyle::Added);
    assert_eq!(new_p[0].text, "D\n");
}

#[test]
fn equal_texts_give_equal_panes_and_no_hunks() {
    let text = "one\ntwo\nthree".to_string();
    let mut cache = DiffCache::new();
    assert!(cache.load("p", text.clone(), text.clone()));
    assert!(cache.get("p").unwrap().hunks.is_empty());
    let (old_p, new_p) = get_file_diff("p", 0, 10, &cache).unwrap();
    let old_t: Vec<String> = old_p.iter().map(|l| l.text.clone()).collect();
    let new_t: Vec<String> = new_p.iter().map(|l| l.text.clone()).collect();
    assert_eq!(old_t, vec!["one", "two", "three"]);
    assert_eq!(old_t, new_t);
    assert!(old_p.iter().all(|l| l.style == LineStyle::Plain));
}

#[test]
fn different_texts_give_hunks() {
    let mut cache = DiffCache::new();
    assert!(cache.load("p", "a\nb\n".to_string(), "a\nc\n".to_string()));
    let entry = cache.get("p").unwrap();
    assert_eq!(entry.hunks.len(), 1);
    assert_eq!(entry.hunks[0].old_start, 1);
    let kinds: Vec<OwnedLineType> = entry.hunks[0].lines.iter().map(|l| l.0).collect();
    assert_eq!(
        kinds,
        vec![OwnedLineType::Context, OwnedLineType::Delete, OwnedLineType::Insert]
    );
    assert_eq!(entry.hunks[0].lines[1].1, "b\n");
    assert_eq!(entry.change_region_offsets, vec![1]);
}

#[test]
fn cache_miss_gives_none() {
    let cache = DiffCache::new();
    assert!(cache.get("nothing").is_none());
    assert!(get_file_diff("nothing", 0, 5, &cache).is_none());
}

#[test]
fn cache_keeps_latest_load() {
    let mut cache = DiffCache::new();
    assert!(cache.load("p", "x\n".to_string(), "x\n".to_string()));
    assert!(cache.load("p", "y\n".to_string(), "z\n".to_string()));
    assert_eq!(cache.get("p").unwrap().old_content, "y\n");
    assert!(cache.load("q", "q\n".to_string(), "q\n".to_string()));
    assert_eq!(cache.get("p").unwrap().old_content, "y\n");
}

#[test]
fn styled_lines_pad_the_shorter_pane() {
    let hunks = vec![OwnedHunk {
        old_start: 2,
        lines: vec![
            (OwnedLineType::Context, "b".into()),
            (OwnedLineType::Insert, "x".into()),
            (OwnedLineType::Insert, "y".into()),
            (OwnedLineType::Context, "c".into()),
            (OwnedLineType::Delete, "d".into()),
        ],
    }];
    let (old_p, new_p) = compute_styled_lines("a\nb\nc\nd\ne", &hunks, 0, 100);
    let old_s: Vec<(LineStyle, String)> = old_p.iter().map(|l| (l.style, l.text.clone())).collect();
    let new_s: Vec<(LineStyle, String)> = new_p.iter().map(|l| (l.style, l.text.clone())).collect();
    assert_eq!(
        old_s,
        vec![
            (LineStyle::Plain, "a".to_string()),
            (LineStyle::Plain, "b".to_string()),
            (LineStyle::Padding, " ".to_string()),
            (LineStyle::Padding, " ".to_string()),
            (LineStyle::Plain, "c".to_string()),
            (LineStyle::Removed, "d".to_string()),
            (LineStyle::Plain, "e".to_string()),
        ]
    );
    assert_eq!(
        new_s,
        vec![
            (LineStyle::Plain, "a".to_string()),
            (LineStyle::Plain, "b".to_string()),
            (LineStyle::Added, "x".to_string()),
            (LineStyle::Added, "y".to_string()),
            (LineStyle::Plain, "c".to_string()),
            (LineStyle::Padding, " ".to_string()),
            (LineStyle::Plain, "e".to_string()),
        ]
    );
    let (old_w, new_w) = compute_styled_lines("a\nb\nc\nd\ne", &hunks, 2, 2);
    assert_eq!(old_w.len(), 2);
    assert_eq!(old_w[0].style, LineStyle::Padding);
    assert_eq!(new_w[1].style, LineStyle::Added);
    let (old_e, new_e) = compute_styled_lines("a\nb\nc\nd\ne", &hunks, 100, 5);
    assert!(old_e.is_empty() && new_e.is_empty());
}

#[test]
fn change_rows_past_usize_are_refused() {
    let hunks = vec![OwnedHunk { old_start: 10, lines: vec![(OwnedLineType::Delete, "z".into())] }];
    assert!(ripdiff::diff::change_rows_fit(&hunks));
    let huge = vec![OwnedHunk {
        old_start: usize::MAX,
        lines: vec![(OwnedLineType::Delete, "z".into()), (OwnedLineType::Delete, "y".into())],
    }];
    assert!(!ripdiff::diff::change_rows_fit(&huge));
}

#[test]
fn file_paths_below_old_root() {
    let (f1, f2) = diff_file_paths("test_files/old", "test_files/new", "test_files/old/unchanged.txt");
    assert_eq!(f1, "test_files/old/unchanged.txt");
    assert_eq!(f2, "test_files/new/unchanged.txt");
}

#[test]
fn file_paths_below_new_root() {
    let (f1, f2) = diff_file_paths("test_files/old", "test_files/new", "test_files/new/a/b.txt");
    assert_eq!(f1, "test_files/old/a/b.txt");
    assert_eq!(f2, "test_files/new/a/b.txt");
}

#[test]
fn file_paths_below_neither_root() {
    let (f1, f2) = diff_file_paths("test_files/old", "test_files/new", "/nonexistent/path");
    assert_eq!(f1, "test_files/old/nonexistent/path");
    assert_eq!(f2, "test_files/new/nonexistent/path");
    let (g1, g2) = diff_file_paths("old", "new", "x.txt");
    assert_eq!(g1, "old/x.txt");
    assert_eq!(g2, "new/x.txt");
}

#[test]
fn file_paths_with_identical_roots() {
    let (f1, f2) = diff_file_paths("test_files/old", "test_files/old", "test_files/old/unchanged.txt");
    assert_eq!(f1, f2);
}

#[test]
fn whole_files_are_shown_after_the_last_hunk() {
    let old_content: String = (1..=20).map(|i| format!("Line {:03}\n", i)).collect();
    let new_content = old_content.replace("Line 003\n", "Line three\n");
    let mut cache = DiffCache::new();
    assert!(cache.load("f", old_content, new_content));
    let (old_p, new_p) = get_file_diff("f", 0, 100, &cache).unwrap();
    assert_eq!(old_p.len(), new_p.len());
    let old_t: Vec<String> = old_p
        .iter()
        .filter(|l| l.style != LineStyle::Padding)
        .map(|l| l.text.trim_end().to_string())
        .collect();
    let expected: Vec<String> = (1..=20).map(|i| format!("Line {:03}", i)).chain(["".to_string()]).collect();
    assert_eq!(old_t, expected);
    assert_eq!(new_p[new_p.len() - 2].text, "Line 020");
    assert_eq!(old_p[old_p.len() - 2].text, "Line 020");
    assert!(new_p.iter().any(|l| l.style == LineStyle::Added && l.text == "Line three\n"));
}

#[test]
fn panes_have_equal_length_with_uneven_changes() {
    let hunks = vec![OwnedHunk {
        old_start: 1,
        lines: vec![
            (OwnedLineType::Delete, "a".into()),
            (OwnedLineType::Insert, "x".into()),
            (OwnedLineType::Insert, "y".into()),
            (OwnedLineType::Insert, "z".into()),
        ],
    }];
    let (old_p, new_p) = compute_styled_lines("a\nb\nc", &hunks, 0, 100);
    assert_eq!(old_p.len(), 5);
    assert_eq!(new_p.len(), 5);
    assert_eq!(old_p[3].text, "b");
    assert_eq!(new_p[4].text, "c");
}

#[test]
fn files_are_read_only_on_a_cache_miss() {
    let mut cache = DiffCache::new();
    let r = files_to_read(&cache, "test_files/old", "test_files/new", "test_files/new/unchanged.txt");
    assert_eq!(
        r,
        Some((
            "test_files/old/unchanged.txt".to_string(),
            "test_files/new/unchanged.txt".to_string(),
            false
        ))
    );
    let same = files_to_read(&cache, "r", "r", "r/a.txt");
    assert_eq!(same, Some(("r/a.txt".to_string(), "r/a.txt".to_string(), true)));
    assert!(cache.load("test_files/new/unchanged.txt", "a\n".to_string(), "a\n".to_string()));
    assert_eq!(
        files_to_read(&cache, "test_files/old", "test_files/new", "test_files/new/unchanged.txt"),
        None
    );
}

#[test]
fn jump_to_a_pure_insertion_shows_padding_in_the_old_pane() {
    let mut cache = DiffCache::new();
    assert!(cache.load("i", "a\nb\nc\n".to_string(), "a\nx\nb\nc\n".to_string()));
    let offsets = cache.get("i").unwrap().change_region_offsets.clone();
    assert_eq!(offsets, vec![1]);
    let (old_p, new_p) = get_file_diff("i", offsets[0], 3, &cache).unwrap();
    assert_eq!(old_p[0].style, LineStyle::Padding);
    assert_eq!(old_p[0].text, " ");
    assert_eq!(new_p[0].style, LineStyle::Added);
    assert_eq!(new_p[0].text, "x\n");
}

#[test]
fn one_offset_per_run_of_changes() {
    let hunks = vec![
        OwnedHunk {
            old_start: 1,
            lines: vec![
                (OwnedLineType::Delete, "a".into()),
                (OwnedLineType::Insert, "b".into()),
                (OwnedLineType::Context, "c".into()),
                (OwnedLineType::Insert, "d".into()),
            ],
        },
        OwnedHunk { old_start: 10, lines: vec![(OwnedLineType::Context, "j".into())] },
    ];
    assert_eq!(change_region_offsets(&hunks).len(), 2);
}

fn shown_lines(rows: &[StyledLine]) -> Vec<String> {
    rows.iter()
        .filter(|l| l.style != LineStyle::Padding)
        .map(|l| l.text.strip_suffix('\n').unwrap_or(&l.text).to_string())
        .collect()
}

#[test]
fn panes_list_the_old_and_the_new_file() {
    let old_content = "one\ntwo\nthree\nfour\nfive\nsix\nseven\neight\nnine\nten\n".to_string();
    let new_content = "zero\none\nthree\nfour\nFIVE\nsix\nseven\neight\nnine\nten\neleven\n".to_string();
    let mut cache = DiffCache::new();
    assert!(cache.load("f", old_content.clone(), new_content.clone()));
    let (old_p, new_p) = get_file_diff("f", 0, 1000, &cache).unwrap();
    let old_expected: Vec<String> = old_content.split('\n').map(|s| s.to_string()).collect();
    let new_expected: Vec<String> = new_content.split('\n').map(|s| s.to_string()).collect();
    assert_eq!(shown_lines(&old_p), old_expected);
    assert_eq!(shown_lines(&new_p), new_expected);
    assert_eq!(old_p.len(), new_p.len());
}

#[test]
fn new_pane_keeps_the_old_final_piece_when_endings_differ() {
    let mut cache = DiffCache::new();
    assert!(cache.load("g", "a\nb\n".to_string(), "a\nb".to_string()));
    let (old_p, new_p) = get_file_diff("g", 0, 100, &cache).unwrap();
    assert_eq!(shown_lines(&old_p), vec!["a", "b", ""]);
    assert_eq!(shown_lines(&new_p), vec!["a", "b", ""]);
}
