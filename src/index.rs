use vstd::prelude::*;

use crate::preview::{make_preview, preview_of};
use crate::search::PromptEntry;
use crate::tag_order::{sort_unique, strictly_sorted};
use crate::tags::{
    chars_of_all, extract_tags, lemma_normalize_all_canonical, normalize_all, normalize_each,
    opt_view, strings_of, tag_of, title_tags,
};
use crate::tags_meta::{
    key_of, relative_components, relative_path_components, resolve_tags_for_path, TagsMeta,
};
use crate::text::{ascii_lower, chars_of, str_views, to_ascii_lower, views};

verus! {

/// What `Path::file_stem` gives for the path with the given text under the target's path
/// syntax (empty when it gives nothing).
pub uninterp spec fn stem_of(p: Seq<char>) -> Seq<char>;

/// Relies on `std::path::Path::file_stem`: the file name without its final extension,
/// or nothing when the path has no file name (then the empty string).
#[verifier::external_body]
fn file_stem(p: &str) -> (r: String)
    ensures
        r@ == stem_of(p@),
{
    std::path::Path::new(p).file_stem().unwrap_or_default().to_string_lossy().into_owned()
}

/// What `Path::extension` gives for the path with the given text under the target's path
/// syntax.
pub uninterp spec fn extension_of(p: Seq<char>) -> Option<Seq<char>>;

/// Relies on `std::path::Path::extension`: the text after the final `.` of the file name,
/// if there is one.
#[verifier::external_body]
fn file_extension(p: &str) -> (r: Option<String>)
    ensures
        opt_view(r) == extension_of(p@),
{
    match std::path::Path::new(p).extension() {
        Some(e) => Some(e.to_string_lossy().into_owned()),
        None => None,
    }
}

/// Whether a path names a prompt file: extension `md` or `txt`, in any ASCII case.
pub open spec fn prompt_file(p: Seq<char>) -> bool {
    match extension_of(p) {
        Some(e) => ascii_lower(e) == seq!['m', 'd'] || ascii_lower(e) == seq!['t', 'x', 't'],
        None => false,
    }
}

/// Tags from the directories between `root` and the file, root-nearest first.
pub open spec fn path_tags(root: Seq<char>, path: Seq<char>) -> Seq<Seq<char>> {
    match relative_components(root, path) {
        Some(rel) => if rel.len() == 0 {
            Seq::empty()
        } else {
            normalize_all(rel.drop_last())
        },
        None => Seq::empty(),
    }
}

/// Tags derived from a file's title and directories, used when it has no explicit entry.
pub open spec fn fallback_tags(root: Seq<char>, path: Seq<char>) -> Seq<Seq<char>> {
    title_tags(stem_of(path)) + path_tags(root, path)
}

/// The tag list a file resolves to before canonicalisation: its explicit entry, else its
/// fallback tags.
pub open spec fn resolved_tags(meta: TagsMeta, root: Seq<char>, path: Seq<char>) -> Seq<Seq<char>> {
    if meta.tags_map().contains_key(key_of(root, path)) {
        meta.tags_map()[key_of(root, path)]
    } else {
        fallback_tags(root, path)
    }
}

/// Whether the file at `path` is a prompt file, by its extension.
pub fn is_prompt_file(path: &str) -> (r: bool)
    ensures
        r == prompt_file(path@),
{
    match file_extension(path) {
        Some(e) => {
            let v = chars_of(e.as_str());
            let l = to_ascii_lower(&v);
            let md = l.len() == 2 && l[0] == 'm' && l[1] == 'd';
            let txt = l.len() == 3 && l[0] == 't' && l[1] == 'x' && l[2] == 't';
            assert(md == (l@ == seq!['m', 'd'])) by {
                if l@ == seq!['m', 'd'] {
                    assert(l@[0] == 'm' && l@[1] == 'd');
                }
                if md {
                    assert(l@ =~= seq!['m', 'd']);
                }
            }
            assert(txt == (l@ == seq!['t', 'x', 't'])) by {
                if l@ == seq!['t', 'x', 't'] {
                    assert(l@[0] == 't' && l@[1] == 'x' && l@[2] == 't');
                }
                if txt {
                    assert(l@ =~= seq!['t', 'x', 't']);
                }
            }
            md || txt
        },
        None => false,
    }
}

/// Tags from the directories between `root` and the file at `path`, root-nearest first;
/// directory names that are not valid tags are dropped, repeats are kept.
pub fn extract_path_tags(path: &str, root: &str) -> (r: Vec<String>)
    ensures
        str_views(r@) == path_tags(root@, path@),
{
    match relative_path_components(root, path) {
        None => Vec::new(),
        Some(rel) => {
            if rel.len() == 0 {
                return Vec::new();
            }
            let cands = chars_of_all(&rel);
            let mut dirs = cands;
            let ghost all = views(dirs@);
            dirs.pop();
            assert(views(dirs@) =~= all.drop_last());
            let n = normalize_each(&dirs);
            strings_of(&n)
        },
    }
}

/// Builds the entry of one prompt file from its path, its contents and the directory's
/// metadata: the title is the file stem; the tags are the explicit entry or else the
/// fallback tags, canonicalised, each once, in increasing order.
pub fn build_prompt_entry(
    path: &str,
    root: &str,
    body: String,
    meta: &TagsMeta,
    preview_chars: usize,
) -> (r: PromptEntry)
    ensures
        r.id@ == path@,
        r.path@ == path@,
        r.title@ == stem_of(path@),
        r.body@ == body@,
        r.preview@ == preview_of(body@, preview_chars as int),
        strictly_sorted(r@.tags),
        forall|i: int| 0 <= i < r@.tags.len() ==> tag_of(#[trigger] r@.tags[i]) == Some(r@.tags[i]),
        forall|y: Seq<char>| #[trigger]
            r@.tags.contains(y) <==> normalize_all(resolved_tags(*meta, root@, path@)).contains(y),
{
    let title = file_stem(path);
    let mut fallback = extract_tags(title.as_str());
    let mut from_dirs = extract_path_tags(path, root);
    let ghost f1 = str_views(fallback@);
    let ghost f2 = str_views(from_dirs@);
    fallback.append(&mut from_dirs);
    assert(str_views(fallback@) =~= f1 + f2);
    let resolved = resolve_tags_for_path(meta, root, path, fallback);
    let cands = chars_of_all(&resolved);
    let canon = normalize_each(&cands);
    let sorted = sort_unique(&canon);
    let tags = strings_of(&sorted);
    proof {
        lemma_normalize_all_canonical(views(cands@));
        assert forall|i: int| 0 <= i < views(sorted@).len() implies tag_of(
            #[trigger] views(sorted@)[i],
        ) == Some(views(sorted@)[i]) by {
            assert(views(sorted@).contains(views(sorted@)[i]));
            assert(views(canon@).contains(views(sorted@)[i]));
        }
    }
    let preview = make_preview(body.as_str(), preview_chars);
    PromptEntry {
        id: path.to_owned(),
        title,
        body,
        preview,
        tags,
        path: path.to_owned(),
    }
}

} // verus!
