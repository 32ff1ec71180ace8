use vstd::prelude::*;

use crate::filename::{build_prompt_file_name, error_message, file_name_for};
use crate::tags_meta::{joined_of, path_join};

verus! {

/// Where prompt files are created; the application supplies the file system behind it.
pub trait PromptFileRepository {
    fn ensure_dir(&self, dir: &str) -> Result<(), String>;

    fn file_exists(&self, path: &str) -> bool;

    fn create_new(&self, path: &str) -> Result<(), String>;
}

/// Message for a name whose file is already there.
pub open spec fn exists_message() -> Seq<char> {
    "文件已存在，无法创建"@
}

/// Whether a file may be created, given whether one is already at its path: refused with
/// the "already exists" message exactly when there is.
pub fn check_not_existing(exists: bool) -> (r: Result<(), String>)
    ensures
        exists <==> r is Err,
        r matches Err(m) ==> m@ == exists_message(),
{
    if exists {
        return Err("文件已存在，无法创建".to_owned());
    }
    Ok(())
}

/// Creates empty prompt files with names checked by the file name rule.
pub struct CreatePromptFileUseCase<R> {
    repo: R,
}

impl<R: PromptFileRepository> CreatePromptFileUseCase<R> {
    /// A use case creating files through `repo`.
    pub fn new(repo: R) -> (r: Self) {
        CreatePromptFileUseCase { repo }
    }

    /// Creates the prompt file `name` stands for in `prompts_dir` and returns its path.
    /// A name the rule refuses gives that rule's message and touches nothing; an existing
    /// file gives the "already exists" message (`check_not_existing`); the repository's own
    /// errors pass through.
    pub fn execute(&self, prompts_dir: &str, name: &str) -> (r: Result<String, String>)
        ensures
            file_name_for(name@) matches Err(e) ==> r matches Err(m) && m@ == error_message(e),
            file_name_for(name@) matches Ok(f) ==> (r matches Ok(p) ==> p@ == joined_of(
                prompts_dir@,
                f,
            )),
    {
        let file_name = match build_prompt_file_name(name) {
            Ok(f) => f,
            Err(e) => {
                return Err(e.message().to_owned());
            },
        };
        self.repo.ensure_dir(prompts_dir)?;
        let path = path_join(prompts_dir, file_name.as_str());
        check_not_existing(self.repo.file_exists(path.as_str()))?;
        self.repo.create_new(path.as_str())?;
        Ok(path)
    }
}

} // verus!
