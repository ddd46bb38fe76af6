use ripdiff::state::DirMap;
use ripdiff::walker::MultiVisitor;

fn names(v: &[&str]) -> Vec<String> {
    v.iter().map(|s| s.to_string()).collect()
}

#[test]
fn visitor_records_readable_directories_only() {
    let mut visitor = MultiVisitor::new();
    visitor.visit(Some(("/root".to_string(), names(&["a", "b"]))));
    visitor.visit(None);
    let mut main = DirMap::new();
    visitor.drain_into(&mut main);
    assert_eq!(main.get("/root"), Some(&names(&["a", "b"])));
    assert_eq!(main.get("/other"), None);
}

#[test]
fn visitor_listing_replaces_shared_entry_and_keeps_the_rest() {
    let mut main = DirMap::new();
    main.insert("/root".to_string(), names(&["stale"]));
    main.insert("/kept".to_string(), names(&["x"]));
    let mut visitor = MultiVisitor::new();
    visitor.visit(Some(("/root".to_string(), names(&["fresh"]))));
    visitor.drain_into(&mut main);
    assert_eq!(main.get("/root"), Some(&names(&["fresh"])));
    assert_eq!(main.get("/kept"), Some(&names(&["x"])));
}

#[test]
fn visitor_is_empty_after_draining() {
    let mut visitor = MultiVisitor::new();
    visitor.visit(Some(("/root".to_string(), names(&["a"]))));
    let mut first = DirMap::new();
    visitor.drain_into(&mut first);
    let mut second = DirMap::new();
    visitor.drain_into(&mut second);
    assert_eq!(first.get("/root"), Some(&names(&["a"])));
    assert_eq!(second.get("/root"), None);
}

#[test]
fn dir_map_append_prefers_the_appended_side() {
    let mut left = DirMap::new();
    left.insert("/d".to_string(), names(&["l"]));
    left.insert("/only_left".to_string(), names(&["l"]));
    let mut right = DirMap::new();
    right.insert("/d".to_string(), names(&["r"]));
    left.append(&mut right);
    assert_eq!(left.get("/d"), Some(&names(&["r"])));
    assert_eq!(left.get("/only_left"), Some(&names(&["l"])));
    assert_eq!(right.get("/d"), None);
}
