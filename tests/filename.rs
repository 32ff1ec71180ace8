use prompt_launcher::filename::{build_prompt_file_name, PromptFileNameError};

#[test]
fn build_prompt_file_name_rejects_empty() {
    assert_eq!(build_prompt_file_name(" "), Err(PromptFileNameError::Empty));
}

#[test]
fn build_prompt_file_name_rejects_invalid() {
    assert_eq!(
        build_prompt_file_name("bad|name"),
        Err(PromptFileNameError::Invalid)
    );
}

#[test]
fn build_prompt_file_name_appends_txt() {
    assert_eq!(build_prompt_file_name("hello"), Ok("hello.txt".to_string()));
}

#[test]
fn build_prompt_file_name_keeps_txt() {
    assert_eq!(
        build_prompt_file_name("demo.txt"),
        Ok("demo.txt".to_string())
    );
}

#[test]
fn file_name_blank_input_is_empty() {
    assert_eq!(build_prompt_file_name("  "), Err(PromptFileNameError::Empty));
    assert_eq!(build_prompt_file_name(""), Err(PromptFileNameError::Empty));
}

#[test]
fn file_name_with_pipe_is_invalid() {
    assert_eq!(build_prompt_file_name("a|b"), Err(PromptFileNameError::Invalid));
}

#[test]
fn file_name_note_gets_extension_once() {
    assert_eq!(build_prompt_file_name("note"), Ok("note.txt".to_string()));
    assert_eq!(build_prompt_file_name("note.txt"), Ok("note.txt".to_string()));
    let once = build_prompt_file_name("note").unwrap();
    assert_eq!(build_prompt_file_name(&once), Ok(once.clone()));
}

#[test]
fn file_name_extension_case_is_kept() {
    assert_eq!(build_prompt_file_name("  Draft.TXT "), Ok("Draft.TXT".to_string()));
}

#[test]
fn file_name_each_reserved_character_is_invalid() {
    for bad in ["a<b", "a>b", "a:b", "a\"b", "a/b", "a\\b", "a?b", "a*b"] {
        assert_eq!(build_prompt_file_name(bad), Err(PromptFileNameError::Invalid));
    }
}

#[test]
fn file_name_trailing_dot_before_extension_is_fine() {
    assert_eq!(build_prompt_file_name("a."), Ok("a..txt".to_string()));
    assert_eq!(build_prompt_file_name(".."), Ok("...txt".to_string()));
}

#[test]
fn file_name_error_messages() {
    assert_eq!(PromptFileNameError::Empty.message(), "文件名不能为空");
    assert_eq!(PromptFileNameError::Invalid.message(), "文件名包含非法字符");
}
