use prompt_launcher::preview::make_preview;

#[test]
fn preview_cuts_mid_token_with_ellipsis() {
    let p = make_preview("the quick brown fox", 10);
    assert_eq!(p, "the quick ...");
    assert!(p.ends_with("..."));
}

#[test]
fn preview_of_zero_budget_is_empty() {
    assert_eq!(make_preview("anything at all", 0), "");
    assert_eq!(make_preview("", 0), "");
}

#[test]
fn preview_keeps_short_bodies_whole() {
    assert_eq!(make_preview("  hello \n  world  ", 50), "hello world");
    assert_eq!(make_preview("", 10), "");
    assert_eq!(make_preview("exactly10!", 10), "exactly10!");
}

#[test]
fn preview_splits_a_long_first_token() {
    assert_eq!(make_preview("abcdefghijkl", 5), "abcde...");
}

#[test]
fn preview_counts_characters_not_bytes() {
    assert_eq!(make_preview("中文测试内容", 4), "中文测试...");
    assert_eq!(make_preview("中文 测试", 5), "中文 测试");
}

#[test]
fn preview_stops_after_exact_fit_when_more_follows() {
    assert_eq!(make_preview("abcde fgh", 5), "abcde...");
}
