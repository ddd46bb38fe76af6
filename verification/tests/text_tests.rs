use ripdiff::text::{
    count_char_in, is_whitespace, remove_first_occurrence_string, split_lines, trim_start_string,
    trim_string,
};

#[test]
fn whitespace_agrees_with_std() {
    for u in 0u32..0x3100 {
        if let Some(c) = char::from_u32(u) {
            assert_eq!(is_whitespace(c), c.is_whitespace(), "at {u:#x}");
        }
    }
    assert!(!is_whitespace('\u{feff}'));
}

#[test]
fn split_like_std() {
    for s in ["", "a", "a\n", "\n", "a\nb", "a\n\nb\n", "中\n文"] {
        let expected: Vec<String> = s.split('\n').map(|x| x.to_string()).collect();
        assert_eq!(split_lines(s), expected);
    }
}

#[test]
fn trims_like_std() {
    for s in ["", "  a ", "\t\u{3000}b c\n", "x", "   "] {
        assert_eq!(trim_start_string(s), s.trim_start());
        assert_eq!(trim_string(s), s.trim());
    }
}

#[test]
fn removes_first_occurrence_like_replacen() {
    for (s, p) in [("/root/a/root", "/root"), ("abc", ""), ("abc", "x"), ("aaa", "aa"), ("中文中", "中")] {
        assert_eq!(remove_first_occurrence_string(s, p), s.replacen(p, "", 1));
    }
}

#[test]
fn counts_slashes() {
    assert_eq!(count_char_in("/a/b/", '/'), 3);
    assert_eq!(count_char_in("", '/'), 0);
}
