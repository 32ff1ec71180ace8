use prompt_launcher::config::{
    default_preview_chars, default_show_shortcuts_hint, default_top_tags_limit, AppConfig,
};
use prompt_launcher::search::PromptEntry;
use prompt_launcher::service::PromptsService;

#[test]
fn clamp_preview_chars_bounds() {
    assert_eq!(PromptsService::clamp_preview_chars(0), 10);
    assert_eq!(PromptsService::clamp_preview_chars(10), 10);
    assert_eq!(PromptsService::clamp_preview_chars(77), 77);
    assert_eq!(PromptsService::clamp_preview_chars(200), 200);
    assert_eq!(PromptsService::clamp_preview_chars(5000), 200);
}

#[test]
fn pending_hidden_within_grace_only_when_empty() {
    assert!(PromptsService::pending_hidden(0, 1_000, 1_000));
    assert!(PromptsService::pending_hidden(0, 1_000, 5_999));
    assert!(!PromptsService::pending_hidden(0, 1_000, 6_000));
    assert!(!PromptsService::pending_hidden(3, 1_000, 1_500));
    assert!(PromptsService::pending_hidden(0, 9_000, 1_000));
}

#[test]
fn apply_preview_chars_rebuilds_previews() {
    let mut prompts = vec![PromptEntry {
        id: "i".to_string(),
        title: "t".to_string(),
        body: "one two three four five six".to_string(),
        preview: "old".to_string(),
        tags: vec![],
        path: "i".to_string(),
    }];
    PromptsService::apply_preview_chars(&mut prompts, 3);
    assert_eq!(prompts[0].preview, "one two th...");
    assert_eq!(prompts[0].body, "one two three four five six");
}

#[test]
fn config_defaults() {
    let c = AppConfig::default();
    assert!(c.prompts_dir.is_empty());
    assert!(c.auto_paste);
    assert_eq!(c.hotkey, "Alt+Space");
    assert!(c.recent_enabled);
    assert_eq!(c.top_tags_limit, default_top_tags_limit());
    assert_eq!(default_top_tags_limit(), 8);
    assert!(default_show_shortcuts_hint());
    assert_eq!(default_preview_chars(), 50);
    assert_eq!(c.preview_chars, 50);
}

#[test]
fn toggle_favorite_adds_then_removes() {
    let mut c = AppConfig::default();
    assert_eq!(c.toggle_favorite("a".to_string()), vec!["a".to_string()]);
    assert_eq!(c.toggle_favorite("b".to_string()), vec!["a".to_string(), "b".to_string()]);
    assert_eq!(c.toggle_favorite("a".to_string()), vec!["b".to_string()]);
    assert_eq!(c.favorites, vec!["b".to_string()]);
}

#[test]
fn push_recent_moves_to_front_and_stamps() {
    let mut c = AppConfig::default();
    c.push_recent("a".to_string(), 10);
    c.push_recent("b".to_string(), 20);
    let r = c.push_recent("a".to_string(), 30);
    assert_eq!(r.recent_ids, vec!["a".to_string(), "b".to_string()]);
    let mut meta = r.recent_meta.clone();
    meta.sort();
    assert_eq!(meta, vec![("a".to_string(), 30), ("b".to_string(), 20)]);
    assert_eq!(c.recent_ids, r.recent_ids);
}

#[test]
fn push_recent_keeps_twenty_and_drops_old_times() {
    let mut c = AppConfig::default();
    for i in 0..25 {
        c.push_recent(format!("p{i}"), i as i64);
    }
    assert_eq!(c.recent_ids.len(), 20);
    assert_eq!(c.recent_ids[0], "p24");
    assert_eq!(c.recent_ids[19], "p5");
    assert_eq!(c.recent_meta.len(), 20);
    assert!(c.recent_meta.iter().all(|(k, _)| c.recent_ids.contains(k)));
}

#[test]
fn push_recent_of_empty_id_stamps_nothing() {
    let mut c = AppConfig::default();
    let r = c.push_recent(String::new(), 5);
    assert_eq!(r.recent_ids, vec![String::new()]);
    assert!(r.recent_meta.is_empty());
}

#[test]
fn clear_recent_empties_both() {
    let mut c = AppConfig::default();
    c.push_recent("a".to_string(), 1);
    let r = c.clear_recent();
    assert!(r.recent_ids.is_empty() && r.recent_meta.is_empty());
    assert!(c.recent_ids.is_empty() && c.recent_meta.is_empty());
}

#[test]
fn top_tags_limit_is_clamped() {
    let mut c = AppConfig::default();
    c.set_top_tags_limit(0);
    assert_eq!(c.top_tags_limit, 1);
    c.set_top_tags_limit(7);
    assert_eq!(c.top_tags_limit, 7);
    c.set_top_tags_limit(99);
    assert_eq!(c.top_tags_limit, 20);
}

fn prompt(id: &str) -> PromptEntry {
    PromptEntry {
        id: id.to_string(),
        title: id.to_string(),
        body: String::new(),
        preview: String::new(),
        tags: vec![],
        path: id.to_string(),
    }
}

#[test]
fn split_pending_hides_new_empty_files() {
    let prompts = vec![prompt("a"), prompt("b"), prompt("c")];
    let pending = vec![("a".to_string(), 1_000u128), ("b".to_string(), 1_000u128)];
    let (shown, still) = PromptsService::split_pending(&prompts, &pending, &vec![0, 5, 0], 2_000);
    assert_eq!(shown, vec![prompt("b"), prompt("c")]);
    assert_eq!(still, vec![("a".to_string(), 1_000u128)]);
    let (shown, still) = PromptsService::split_pending(&prompts, &pending, &vec![0, 0, 0], 7_000);
    assert_eq!(shown.len(), 3);
    assert!(still.is_empty());
}
