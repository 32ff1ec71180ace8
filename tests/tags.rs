use prompt_launcher::edit::normalize_input_tags;
use prompt_launcher::tags::{extract_tags, normalize_tag, normalize_tags};

#[test]
fn normalize_tag_accepts_chinese_and_ascii() {
    assert_eq!(normalize_tag("Tag1"), Some("tag1".to_string()));
    assert_eq!(normalize_tag("标签1"), Some("标签1".to_string()));
}

#[test]
fn normalize_tag_rejects_special_chars() {
    assert_eq!(normalize_tag("tag-1"), None);
    assert_eq!(normalize_tag("tag_1"), None);
    assert_eq!(normalize_tag("tag!"), None);
    assert_eq!(normalize_tag("tag 1"), None);
}

#[test]
fn normalize_tag_rejects_overlong() {
    assert_eq!(normalize_tag("12345678901"), None);
}

#[test]
fn normalize_tag_trims_and_accepts_ten_characters() {
    assert_eq!(normalize_tag("  ABCdef1234 "), Some("abcdef1234".to_string()));
    assert_eq!(normalize_tag("   "), None);
    assert_eq!(normalize_tag(""), None);
    assert_eq!(normalize_tag("é"), None);
}

#[test]
fn lib_normalize_input_tags_dedupes_and_normalizes() {
    let tags = normalize_input_tags(vec!["#Tag1 tag1 标签2".to_string(), "foo #foo".to_string()])
        .unwrap();
    assert_eq!(
        tags,
        vec!["tag1".to_string(), "标签2".to_string(), "foo".to_string()]
    );
}

#[test]
fn lib_normalize_input_tags_rejects_invalid() {
    assert!(normalize_input_tags(vec!["tag-1".to_string()]).is_err());
}

#[test]
fn prompts_service_normalize_input_tags_dedupes_and_normalizes() {
    let tags = normalize_input_tags(vec!["#Tag1 tag1 标签2".to_string(), "foo #foo".to_string()])
        .unwrap();
    assert_eq!(
        tags,
        vec!["tag1".to_string(), "标签2".to_string(), "foo".to_string()]
    );
}

#[test]
fn prompts_service_normalize_input_tags_rejects_invalid() {
    assert!(normalize_input_tags(vec!["tag-1".to_string()]).is_err());
}

#[test]
fn normalize_input_tags_strips_every_leading_hash() {
    let tags = normalize_input_tags(vec!["##a  # b".to_string()]).unwrap();
    assert_eq!(tags, vec!["a".to_string(), "b".to_string()]);
    assert_eq!(
        normalize_input_tags(vec!["ok bad_one".to_string()]),
        Err("标签仅允许中英文数字，长度 1-10".to_string())
    );
    assert_eq!(normalize_input_tags(vec![]), Ok(vec![]));
}

#[test]
fn extract_tags_from_brackets_and_hashes() {
    let mut tags = extract_tags("Email [urgent] #work");
    tags.sort();
    assert_eq!(tags, vec!["urgent".to_string(), "work".to_string()]);
}

#[test]
fn extract_tags_dedupes_and_drops_invalid() {
    let mut tags = extract_tags("[A] #a [b-c] #x_y [  ] ##d");
    tags.sort();
    assert_eq!(tags, vec!["a".to_string()]);
}

#[test]
fn extract_tags_stops_at_unterminated_bracket() {
    let mut tags = extract_tags("[one] [two [three] [four");
    tags.sort();
    assert_eq!(tags, vec!["one".to_string()]);
    assert!(extract_tags("[x").is_empty());
    assert!(extract_tags("").is_empty());
}

#[test]
fn normalize_tags_drops_invalid_and_repeats() {
    let tags = normalize_tags(vec![
        "B".to_string(),
        "b".to_string(),
        "bad tag".to_string(),
        "中文".to_string(),
    ]);
    assert_eq!(tags, vec!["b".to_string(), "中文".to_string()]);
}
