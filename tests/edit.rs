use prompt_launcher::edit::{apply_tag_edit, apply_tag_edits, prepare_tag_edit, TagEditError};
use prompt_launcher::search::PromptEntry;
use prompt_launcher::tags_meta::TagsMeta;

fn strings(v: &[&str]) -> Vec<String> {
    v.iter().map(|s| s.to_string()).collect()
}

#[test]
fn edit_adds_and_removes_then_sorts() {
    let r = apply_tag_edit(&strings(&["b", "c"]), &strings(&["a"]), &strings(&["b"]));
    assert_eq!(r, strings(&["a", "c"]));
}

#[test]
fn edit_canonicalises_base_and_dedupes() {
    let r = apply_tag_edit(&strings(&["Z", "z", "bad-one", "m"]), &strings(&["m", "a"]), &strings(&[]));
    assert_eq!(r, strings(&["a", "m", "z"]));
}

#[test]
fn prepare_reports_errors_in_order() {
    assert_eq!(
        prepare_tag_edit(&vec![], strings(&["a"]), vec![], "/p"),
        Err(TagEditError::NoPaths)
    );
    assert_eq!(
        prepare_tag_edit(&strings(&["/p/x.txt"]), strings(&["a-b"]), vec![], "/p"),
        Err(TagEditError::InvalidTag)
    );
    assert_eq!(
        prepare_tag_edit(&strings(&["/p/x.txt"]), strings(&["  "]), strings(&["#"]), "/p"),
        Err(TagEditError::EmptyTags)
    );
    assert_eq!(
        prepare_tag_edit(&strings(&["/p/x.txt"]), strings(&["a"]), vec![], "  "),
        Err(TagEditError::NoDirectory)
    );
    assert_eq!(
        prepare_tag_edit(&strings(&["/p/x.txt"]), strings(&["#A a"]), strings(&["b"]), "/p"),
        Ok((strings(&["a"]), strings(&["b"])))
    );
    assert_eq!(TagEditError::EmptyTags.message(), "标签不能为空");
    assert_eq!(TagEditError::NoPaths.message(), "未选择任何提示词");
}

#[test]
fn batch_uses_entry_or_document_tags() {
    let docs = vec![PromptEntry {
        id: "/p/doc.txt".to_string(),
        title: "doc".to_string(),
        body: String::new(),
        preview: String::new(),
        tags: strings(&["b", "c"]),
        path: "/p/doc.txt".to_string(),
    }];
    let mut meta = TagsMeta::new();
    meta.insert("old.txt".to_string(), strings(&["x", "b"]));
    apply_tag_edits(
        &mut meta,
        "/p",
        &strings(&["/p/doc.txt", "/p/old.txt", "/p/none.txt"]),
        &strings(&["a"]),
        &strings(&["b"]),
        &docs,
    );
    assert_eq!(meta.get("doc.txt"), Some(strings(&["a", "c"])));
    assert_eq!(meta.get("old.txt"), Some(strings(&["a", "x"])));
    assert_eq!(meta.get("none.txt"), Some(strings(&["a"])));
}
