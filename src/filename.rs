use vstd::prelude::*;

use crate::text::{
    ascii_lower, chars_of, is_ws, lemma_trim_ends, lemma_trim_noop, string_of, to_ascii_lower,
    trim, trim_chars,
};

verus! {

/// Why a name cannot become a prompt file name.
#[derive(Debug, Clone, Copy, PartialEq, Eq, Structural)]
pub enum PromptFileNameError {
    Empty,
    Invalid,
}

impl PromptFileNameError {
    /// The message shown to the user.
    pub fn message(&self) -> (r: &'static str)
        ensures
            r@ == error_message(*self),
    {
        match self {
            PromptFileNameError::Empty => "文件名不能为空",
            PromptFileNameError::Invalid => "文件名包含非法字符",
        }
    }
}

/// The message of each file name error.
pub open spec fn error_message(e: PromptFileNameError) -> Seq<char> {
    match e {
        PromptFileNameError::Empty => "文件名不能为空"@,
        PromptFileNameError::Invalid => "文件名包含非法字符"@,
    }
}

/// The extension of prompt files created by name.
pub open spec fn txt_suffix() -> Seq<char> {
    seq!['.', 't', 'x', 't']
}

/// Whether `s` ends with `.txt`, ignoring ASCII case.
pub open spec fn ends_with_txt(s: Seq<char>) -> bool {
    s.len() >= 4 && ascii_lower(s.subrange(s.len() - 4, s.len() as int)) == txt_suffix()
}

/// `s` with `.txt` appended unless it already ends that way.
pub open spec fn with_txt(s: Seq<char>) -> Seq<char> {
    if ends_with_txt(s) {
        s
    } else {
        s + txt_suffix()
    }
}

/// A character that no file name may hold.
pub open spec fn reserved_char(c: char) -> bool {
    c == '<' || c == '>' || c == ':' || c == '"' || c == '/' || c == '\\' || c == '|' || c == '?'
        || c == '*'
}

/// Whether `name`, once trimmed, is usable as a file name.
pub open spec fn valid_file_name(name: Seq<char>) -> bool {
    let t = trim(name);
    &&& t.len() > 0
    &&& t.last() != '.'
    &&& t.last() != ' '
    &&& t != seq!['.']
    &&& t != seq!['.', '.']
    &&& forall|i: int| 0 <= i < t.len() ==> !reserved_char(#[trigger] t[i])
}

/// The file name a user's input stands for.
pub open spec fn file_name_for(input: Seq<char>) -> Result<Seq<char>, PromptFileNameError> {
    let t = trim(input);
    if t.len() == 0 {
        Err(PromptFileNameError::Empty)
    } else if valid_file_name(with_txt(t)) {
        Ok(with_txt(t))
    } else {
        Err(PromptFileNameError::Invalid)
    }
}

/// A file name result as a sequence of characters.
pub open spec fn name_result_view(r: Result<String, PromptFileNameError>) -> Result<
    Seq<char>,
    PromptFileNameError,
> {
    match r {
        Ok(s) => Ok(s@),
        Err(e) => Err(e),
    }
}

fn is_reserved_char(c: char) -> (r: bool)
    ensures
        r == reserved_char(c),
{
    c == '<' || c == '>' || c == ':' || c == '"' || c == '/' || c == '\\' || c == '|' || c == '?'
        || c == '*'
}

/// Whether `name`, once trimmed, is usable as a file name.
pub fn is_valid_filename(name: &Vec<char>) -> (r: bool)
    ensures
        r == valid_file_name(name@),
{
    let t = trim_chars(name);
    let n = t.len();
    if n == 0 {
        return false;
    }
    if t[n - 1] == '.' || t[n - 1] == ' ' {
        return false;
    }
    if (n == 1 && t[0] == '.') || (n == 2 && t[0] == '.' && t[1] == '.') {
        return false;
    }
    assert(t@ != seq!['.']) by {
        if n == 1 {
            assert(t@[0] != seq!['.'][0]);
        }
    }
    assert(t@ != seq!['.', '.']) by {
        if n == 2 {
            assert(t@[0] != '.' || t@[1] != '.');
            if t@[0] != '.' {
                assert(t@[0] != seq!['.', '.'][0]);
            } else {
                assert(t@[1] != seq!['.', '.'][1]);
            }
        }
    }
    let mut i: usize = 0;
    while i < n
        invariant
            i <= n == t.len(),
            t@ == trim(name@),
            forall|j: int| 0 <= j < i ==> !reserved_char(#[trigger] t@[j]),
        decreases n - i,
    {
        if is_reserved_char(t[i]) {
            return false;
        }
        i += 1;
    }
    true
}

/// Turns user input into a prompt file name: trimmed, `.txt` appended unless already there
/// (in any ASCII case), and checked for characters and forms no file name may take.
pub fn build_prompt_file_name(input: &str) -> (r: Result<String, PromptFileNameError>)
    ensures
        name_result_view(r) == file_name_for(input@),
{
    let v = chars_of(input);
    let t = trim_chars(&v);
    if t.len() == 0 {
        return Err(PromptFileNameError::Empty);
    }
    let lower = to_ascii_lower(&t);
    let n = t.len();
    let has_txt = n >= 4 && lower[n - 4] == '.' && lower[n - 3] == 't' && lower[n - 2] == 'x'
        && lower[n - 1] == 't';
    assert(has_txt == ends_with_txt(t@)) by {
        if n >= 4 {
            let tail = ascii_lower(t@.subrange(n - 4, n as int));
            assert(tail[0] == lower@[n - 4]);
            assert(tail[1] == lower@[n - 3]);
            assert(tail[2] == lower@[n - 2]);
            assert(tail[3] == lower@[n - 1]);
            if has_txt {
                assert(tail =~= txt_suffix());
            }
        }
    }
    let mut name = t;
    if !has_txt {
        name.push('.');
        name.push('t');
        name.push('x');
        name.push('t');
        assert(name@ =~= t@ + txt_suffix());
    }
    if !is_valid_filename(&name) {
        return Err(PromptFileNameError::Invalid);
    }
    Ok(string_of(&name))
}

/// A file name that the builder produced comes back unchanged when built again.
pub proof fn lemma_file_name_idempotent(input: Seq<char>)
    requires
        file_name_for(input) is Ok,
    ensures
        file_name_for(file_name_for(input)->Ok_0) == file_name_for(input),
{
    let t = trim(input);
    let n = with_txt(t);
    lemma_trim_ends(input);
    assert(!is_ws(n[0]));
    assert(!is_ws(n.last())) by {
        if !ends_with_txt(t) {
            assert(n.last() == 't');
        }
    }
    lemma_trim_noop(n);
    assert(ends_with_txt(n)) by {
        if !ends_with_txt(t) {
            assert(n.subrange(n.len() - 4, n.len() as int) =~= txt_suffix());
            assert(ascii_lower(txt_suffix()) =~= txt_suffix());
        }
    }
}

} // verus!
