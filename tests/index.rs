use prompt_launcher::index::{build_prompt_entry, extract_path_tags, is_prompt_file};
use prompt_launcher::search::tags_match;
use prompt_launcher::tags_meta::TagsMeta;

#[test]
fn tags_match_and_logic() {
    let dir = "/tmp/tags-match";
    let path = format!("{dir}/示例 #a #b.txt");
    let meta = TagsMeta::default();
    let prompt = build_prompt_entry(&path, dir, "content".to_string(), &meta, 50);

    assert!(tags_match(&prompt, &["a".to_string()]));
    assert!(tags_match(&prompt, &["a".to_string(), "b".to_string()]));
    assert!(!tags_match(&prompt, &["a".to_string(), "c".to_string()]));
}

#[test]
fn entry_fields_come_from_path_body_and_meta() {
    let meta = TagsMeta::default();
    let e = build_prompt_entry(
        "/root/Work/中文/Reply [Mail] #urgent.md",
        "/root",
        "Dear team,   please   read".to_string(),
        &meta,
        12,
    );
    assert_eq!(e.id, "/root/Work/中文/Reply [Mail] #urgent.md");
    assert_eq!(e.path, e.id);
    assert_eq!(e.title, "Reply [Mail] #urgent");
    assert_eq!(e.preview, "Dear team, p...");
    assert_eq!(e.tags, vec!["mail", "urgent", "work", "中文"]);
}

#[test]
fn entry_uses_explicit_tags_when_present() {
    let mut meta = TagsMeta::default();
    meta.insert("sub/a.txt".to_string(), vec!["Zed".to_string(), "b".to_string(), "b".to_string(), "no way".to_string()]);
    let e = build_prompt_entry("/r/sub/a.txt", "/r", String::new(), &meta, 50);
    assert_eq!(e.tags, vec!["b", "zed"]);
    assert_eq!(e.title, "a");
    assert_eq!(e.preview, "");
}

#[test]
fn path_tags_follow_depth_and_keep_repeats() {
    assert_eq!(extract_path_tags("/r/A/b/A/f.txt", "/r"), vec!["a", "b", "a"]);
    assert!(extract_path_tags("/r/f.txt", "/r").is_empty());
    assert!(extract_path_tags("/elsewhere/x/f.txt", "/r").is_empty());
    assert_eq!(extract_path_tags("/r/bad-dir/ok/f.txt", "/r"), vec!["ok"]);
}

#[test]
fn prompt_files_by_extension() {
    assert!(is_prompt_file("/x/a.md"));
    assert!(is_prompt_file("/x/a.TXT"));
    assert!(is_prompt_file("b.Md"));
    assert!(!is_prompt_file("/x/a.rs"));
    assert!(!is_prompt_file("/x/README"));
    assert!(!is_prompt_file("/x/.md"));
}
