use prompt_launcher::usecase::{check_not_existing, CreatePromptFileUseCase, PromptFileRepository};
use std::cell::RefCell;
use std::collections::HashSet;

#[derive(Default)]
struct MemoryRepo {
    ensured_dirs: RefCell<Vec<String>>,
    existing: RefCell<HashSet<String>>,
    created: RefCell<Vec<String>>,
}

impl PromptFileRepository for MemoryRepo {
    fn ensure_dir(&self, dir: &str) -> Result<(), String> {
        self.ensured_dirs.borrow_mut().push(dir.to_string());
        Ok(())
    }

    fn file_exists(&self, path: &str) -> bool {
        self.existing.borrow().contains(path)
    }

    fn create_new(&self, path: &str) -> Result<(), String> {
        self.created.borrow_mut().push(path.to_string());
        Ok(())
    }
}

#[test]
fn execute_rejects_empty_name() {
    let repo = MemoryRepo::default();
    let usecase = CreatePromptFileUseCase::new(repo);
    let result = usecase.execute("C:/prompts", " ");
    assert_eq!(result, Err("文件名不能为空".to_string()));
}

#[test]
fn execute_rejects_invalid_name() {
    let repo = MemoryRepo::default();
    let usecase = CreatePromptFileUseCase::new(repo);
    let result = usecase.execute("C:/prompts", "bad:name");
    assert_eq!(result, Err("文件名包含非法字符".to_string()));
}

#[test]
fn execute_appends_txt_extension() {
    let repo = MemoryRepo::default();
    let usecase = CreatePromptFileUseCase::new(repo);
    let result = usecase
        .execute("C:/prompts", "hello")
        .expect("should create");
    assert_eq!(result, "C:/prompts/hello.txt");
}

#[test]
fn execute_rejects_existing_file() {
    let repo = MemoryRepo::default();
    repo.existing
        .borrow_mut()
        .insert("C:/prompts/existing.txt".to_string());
    let usecase = CreatePromptFileUseCase::new(repo);
    let result = usecase.execute("C:/prompts", "existing.txt");
    assert_eq!(result, Err("文件已存在，无法创建".to_string()));
}

#[test]
fn execute_creates_file_once() {
    let repo = MemoryRepo::default();
    let usecase = CreatePromptFileUseCase::new(repo);
    let result = usecase
        .execute("C:/prompts", "demo")
        .expect("should create");
    assert_eq!(result, "C:/prompts/demo.txt");
}

struct FailingRepo;

impl PromptFileRepository for FailingRepo {
    fn ensure_dir(&self, _dir: &str) -> Result<(), String> {
        Err("no dir".to_string())
    }

    fn file_exists(&self, _path: &str) -> bool {
        false
    }

    fn create_new(&self, _path: &str) -> Result<(), String> {
        Ok(())
    }
}

#[test]
fn execute_passes_repository_errors_through() {
    let usecase = CreatePromptFileUseCase::new(FailingRepo);
    assert_eq!(usecase.execute("/p", "x"), Err("no dir".to_string()));
    assert_eq!(usecase.execute("/p", ""), Err("文件名不能为空".to_string()));
}

#[test]
fn check_not_existing_refuses_only_existing() {
    assert_eq!(check_not_existing(false), Ok(()));
    assert_eq!(check_not_existing(true), Err("文件已存在，无法创建".to_string()));
}
