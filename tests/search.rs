use prompt_launcher::score::{best_substring_index, score_match};
use prompt_launcher::search::{search_prompts, split_query, tags_match, PromptEntry};

fn entry(id: &str, title: &str, body: &str, tags: &[&str]) -> PromptEntry {
    PromptEntry {
        id: id.to_string(),
        title: title.to_string(),
        body: body.to_string(),
        preview: String::new(),
        tags: tags.iter().map(|t| t.to_string()).collect(),
        path: id.to_string(),
    }
}

fn two_docs() -> Vec<PromptEntry> {
    vec![
        entry("/p/b.txt", "Other", "contains email somewhere", &[]),
        entry("/p/a.txt", "Email reply", "", &["work"]),
    ]
}

fn ids(v: &[PromptEntry]) -> Vec<String> {
    v.iter().map(|e| e.id.clone()).collect()
}

#[test]
fn split_query_filters_invalid_tags() {
    let (tags, terms) = split_query("#Tag #tag-1 foo");
    assert_eq!(tags, vec!["tag".to_string()]);
    assert_eq!(terms, vec!["foo".to_string()]);
}

#[test]
fn best_substring_index_handles_multibyte() {
    assert_eq!(best_substring_index("中文测试", "文"), Some(3));
}

#[test]
fn score_match_handles_chinese() {
    assert!(score_match("中文测试", "测").is_some());
}

#[test]
fn score_match_exact_values() {
    // substring at 0: -(200 + 0) - 30 (start boundary) - 10 (end boundary); distance 1 + 1 + 1
    assert_eq!(score_match("abc", "abc"), Some(-237));
    // "ac" is no substring; distances: a at 0 -> 1, c at 2 -> 2
    assert_eq!(score_match("abc", "ac"), Some(3));
    // "b" inside a word: -(200 + 1), no boundary either side; distance 2
    assert_eq!(score_match("abc", "b"), Some(-199));
    assert_eq!(score_match("abc", "d"), None);
    assert_eq!(score_match("abc", ""), Some(0));
    // byte positions: 文 starts at byte 3
    assert_eq!(score_match("中文", "文"), Some(-(200 + 3) - 10 + 4));
}

#[test]
fn best_substring_index_none_and_first() {
    assert_eq!(best_substring_index("abcabc", "c"), Some(2));
    assert_eq!(best_substring_index("abc", "x"), None);
    assert_eq!(best_substring_index("abc", ""), Some(0));
}

#[test]
fn search_title_match_ranks_first() {
    let docs = vec![
        entry("/p/a.txt", "Email reply", "", &["work"]),
        entry("/p/b.txt", "Other", "contains email somewhere", &[]),
    ];
    let r = search_prompts(&docs, "email", 10);
    assert_eq!(ids(&r), vec!["/p/a.txt".to_string(), "/p/b.txt".to_string()]);
    let r = search_prompts(&two_docs(), "email", 10);
    assert_eq!(ids(&r), vec!["/p/a.txt".to_string(), "/p/b.txt".to_string()]);
}

#[test]
fn search_tag_filter_is_exact() {
    let docs = vec![
        entry("/p/a.txt", "Email reply", "", &["work"]),
        entry("/p/b.txt", "Other", "contains email somewhere", &[]),
    ];
    let r = search_prompts(&docs, "#work", 10);
    assert_eq!(ids(&r), vec!["/p/a.txt".to_string()]);
    let r = search_prompts(&docs, "#wor", 10);
    assert!(r.is_empty());
}

#[test]
fn search_empty_query_keeps_index_order() {
    let docs = vec![
        entry("/p/a.txt", "Email reply", "", &["work"]),
        entry("/p/b.txt", "Other", "contains email somewhere", &[]),
    ];
    let r = search_prompts(&docs, "", 1);
    assert_eq!(r.len(), 1);
    assert_eq!(r[0], docs[0]);
    let r = search_prompts(&docs, "   ", 5);
    assert_eq!(r, docs);
}

#[test]
fn search_lowercases_query_and_haystacks() {
    let docs = vec![entry("/p/x.txt", "README", "", &[])];
    assert_eq!(ids(&search_prompts(&docs, "readme", 5)), vec!["/p/x.txt".to_string()]);
    assert_eq!(ids(&search_prompts(&docs, "ReadMe", 5)), vec!["/p/x.txt".to_string()]);
}

#[test]
fn search_requires_every_term_and_respects_limit() {
    let docs = vec![
        entry("/p/1.txt", "alpha", "beta", &[]),
        entry("/p/2.txt", "alpha", "", &[]),
        entry("/p/3.txt", "gamma", "alpha beta", &[]),
    ];
    let r = search_prompts(&docs, "alpha beta", 10);
    assert_eq!(ids(&r), vec!["/p/1.txt".to_string(), "/p/3.txt".to_string()]);
    let r = search_prompts(&docs, "alpha", 1);
    assert_eq!(r.len(), 1);
    assert!(search_prompts(&docs, "zzz", 10).is_empty());
    assert!(search_prompts(&docs, "alpha", 0).is_empty());
}

#[test]
fn search_tag_only_query_keeps_order() {
    let docs = vec![
        entry("/p/1.txt", "one", "", &["a", "b"]),
        entry("/p/2.txt", "two", "", &["b"]),
        entry("/p/3.txt", "three", "", &["a"]),
    ];
    let r = search_prompts(&docs, "#A", 10);
    assert_eq!(ids(&r), vec!["/p/1.txt".to_string(), "/p/3.txt".to_string()]);
    let r = search_prompts(&docs, "#a #b", 10);
    assert_eq!(ids(&r), vec!["/p/1.txt".to_string()]);
    let r = search_prompts(&docs, "#bad-tag", 10);
    assert_eq!(r.len(), 3);
}

#[test]
fn search_word_boundary_counts() {
    let docs = vec![
        entry("/p/1.txt", "xcat", "", &[]),
        entry("/p/2.txt", "x cat", "", &[]),
    ];
    let r = search_prompts(&docs, "cat", 10);
    assert_eq!(ids(&r), vec!["/p/2.txt".to_string(), "/p/1.txt".to_string()]);
}

#[test]
fn tags_match_and_logic_on_entries() {
    let e = entry("/p/a.txt", "t", "", &["a", "b"]);
    assert!(tags_match(&e, &["a".to_string()]));
    assert!(tags_match(&e, &["a".to_string(), "b".to_string()]));
    assert!(!tags_match(&e, &["a".to_string(), "c".to_string()]));
    assert!(tags_match(&e, &[]));
}
