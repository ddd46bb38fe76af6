use ripdiff::state::{get_joined_paths, DirMap};

const OLD_DIR: &str = "test_files/old";
const NEW_DIR: &str = "test_files/new";

#[test]
fn test_get_joined_paths_only_new_has_entries() {
    let old = DirMap::new();
    let mut new = DirMap::new();
    new.insert(format!("{NEW_DIR}/nested"), vec!["unchanged.txt".to_string()]);

    let result = get_joined_paths(&format!("{NEW_DIR}/nested"), &old, &new);
    assert_eq!(result, vec!["unchanged.txt"]);
}

#[test]
fn test_get_joined_paths_both_have_same_directory() {
    let mut old = DirMap::new();
    old.insert(format!("{OLD_DIR}/nested"), vec!["unchanged.txt".to_string()]);
    let mut new = DirMap::new();
    new.insert(format!("{OLD_DIR}/nested"), vec!["modified.txt".to_string()]);

    let result = get_joined_paths(&format!("{OLD_DIR}/nested"), &old, &new);
    assert_eq!(result, vec!["unchanged.txt", "modified.txt"]);
}
