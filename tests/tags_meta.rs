use prompt_launcher::tags_meta::{
    path_to_key, resolve_tags_for_path, tags_meta_path, touch_updated_at, TagsMeta,
};

#[test]
fn resolve_prefers_meta_over_fallback() {
    let dir = "/tmp/tags-meta-resolve";
    let mut meta = TagsMeta::default();
    meta.insert("foo.txt".to_string(), vec!["a".to_string()]);
    let path = format!("{dir}/foo.txt");
    let resolved = resolve_tags_for_path(&meta, dir, &path, vec!["b".to_string()]);
    assert_eq!(resolved, vec!["a".to_string()]);
}

#[test]
fn resolve_uses_fallback_when_missing() {
    let dir = "/tmp/tags-meta-fallback";
    let meta = TagsMeta::default();
    let path = format!("{dir}/bar.txt");
    let resolved = resolve_tags_for_path(&meta, dir, &path, vec!["b".to_string()]);
    assert_eq!(resolved, vec!["b".to_string()]);
}

#[test]
fn resolve_explicit_empty_entry_wins() {
    let mut meta = TagsMeta::new();
    meta.insert("sub/x.md".to_string(), vec![]);
    let resolved = resolve_tags_for_path(&meta, "/root", "/root/sub/x.md", vec!["f".to_string()]);
    assert!(resolved.is_empty());
}

#[test]
fn path_to_key_is_relative_and_slash_joined() {
    assert_eq!(path_to_key("/a/b", "/a/b/c/d.txt"), "c/d.txt");
    assert_eq!(path_to_key("/a/b/", "/a/b//c/./d.txt"), "c/d.txt");
    assert_eq!(path_to_key("/a/b", "/a/bc/d.txt"), "//a/bc/d.txt");
    assert_eq!(path_to_key("/a", "/a"), "");
}

#[test]
fn tags_meta_path_joins_file_name() {
    assert_eq!(tags_meta_path("/data/prompts"), "/data/prompts/.tags.json");
}

#[test]
fn insert_replaces_and_get_reads_back() {
    let mut meta = TagsMeta::new();
    assert_eq!(meta.get("k"), None);
    meta.insert("k".to_string(), vec!["x".to_string()]);
    meta.insert("j".to_string(), vec!["y".to_string()]);
    meta.insert("k".to_string(), vec!["z".to_string()]);
    assert_eq!(meta.get("k"), Some(vec!["z".to_string()]));
    assert_eq!(meta.get("j"), Some(vec!["y".to_string()]));
    assert_eq!(meta.tags_by_path.len(), 2);
    assert_eq!(meta.version, 1);
    assert_eq!(meta.updated_at, 0);
}

#[test]
fn touch_sets_a_recent_time() {
    let mut meta = TagsMeta::new();
    touch_updated_at(&mut meta);
    assert!(meta.updated_at > 1_600_000_000);
    assert_eq!(meta.version, 1);
}

#[test]
fn remove_drops_the_entry() {
    let mut meta = TagsMeta::new();
    meta.insert("a.txt".to_string(), vec!["x".to_string()]);
    meta.insert("b.txt".to_string(), vec!["y".to_string()]);
    assert!(meta.remove("a.txt"));
    assert!(!meta.remove("a.txt"));
    assert_eq!(meta.get("a.txt"), None);
    assert_eq!(meta.get("b.txt"), Some(vec!["y".to_string()]));
}

#[test]
fn equality_ignores_pair_order() {
    let mut a = TagsMeta::new();
    a.insert("x.txt".to_string(), vec!["a".to_string()]);
    a.insert("y.txt".to_string(), vec!["b".to_string()]);
    let mut b = TagsMeta::new();
    b.insert("y.txt".to_string(), vec!["b".to_string()]);
    b.insert("x.txt".to_string(), vec!["a".to_string()]);
    assert_eq!(a, b);
    b.insert("x.txt".to_string(), vec!["c".to_string()]);
    assert_ne!(a, b);
    let mut c = a.clone();
    c.updated_at = 5;
    assert_ne!(a, c);
}

#[test]
fn set_updated_at_stamps_given_time() {
    let mut meta = TagsMeta::new();
    meta.insert("k".to_string(), vec!["t".to_string()]);
    prompt_launcher::tags_meta::set_updated_at(&mut meta, 123);
    assert_eq!(meta.updated_at, 123);
    assert_eq!(meta.get("k"), Some(vec!["t".to_string()]));
}
