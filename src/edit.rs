use vstd::prelude::*;

use crate::search::{PromptEntry, PromptView};
use crate::tag_order::{
    lemma_lex_irreflexive, lemma_lex_transitive, lex_lt, sort_unique, strictly_sorted,
};
use crate::tags::{
    chars_of_all, contains_chars, dedup, normalize_all, normalize_each, normalize_tag_chars,
    normalize_unique, strings_of, tag_of,
};
use crate::tags_meta::{key_of, path_to_key, TagsMeta};
use crate::text::{
    chars_of, copy_strings, split_words, str_views, sub_vec, trim, trim_str, views, words,
};

verus! {

/// `t` without its leading `#` characters.
pub open spec fn strip_hashes(t: Seq<char>) -> Seq<char>
    decreases t.len(),
{
    if t.len() > 0 && t[0] == '#' {
        strip_hashes(t.drop_first())
    } else {
        t
    }
}

/// The tokens with leading `#`s removed, those left empty dropped.
pub open spec fn stripped_tokens(ws: Seq<Seq<char>>) -> Seq<Seq<char>>
    decreases ws.len(),
{
    if ws.len() == 0 {
        Seq::empty()
    } else {
        let r = stripped_tokens(ws.drop_last());
        let t = strip_hashes(ws.last());
        if t.len() > 0 {
            r.push(t)
        } else {
            r
        }
    }
}

/// Every tag candidate of a list of user inputs: their whitespace-separated tokens, in
/// order, without leading `#`s.
pub open spec fn input_candidates(raw: Seq<Seq<char>>) -> Seq<Seq<char>>
    decreases raw.len(),
{
    if raw.len() == 0 {
        Seq::empty()
    } else {
        input_candidates(raw.drop_last()) + stripped_tokens(words(raw.last()))
    }
}

/// Whether every candidate has a canonical form.
pub open spec fn all_valid(cands: Seq<Seq<char>>) -> bool {
    forall|i: int| 0 <= i < cands.len() ==> (#[trigger] tag_of(cands[i])) is Some
}

/// Message for a tag that cannot be canonicalised.
pub open spec fn invalid_tag_message() -> Seq<char> {
    "标签仅允许中英文数字，长度 1-10"@
}

fn strip_leading_hashes(t: &Vec<char>) -> (r: Vec<char>)
    ensures
        r@ == strip_hashes(t@),
{
    let mut i: usize = 0;
    assert(t@.skip(0) == t@);
    while i < t.len() && t[i] == '#'
        invariant
            i <= t.len(),
            strip_hashes(t@) == strip_hashes(t@.skip(i as int)),
        decreases t.len() - i,
    {
        assert(t@.skip(i as int).drop_first() == t@.skip(i + 1));
        i += 1;
    }
    sub_vec(t, i, t.len())
}

fn input_tokens_of(raw: &Vec<String>) -> (r: Vec<Vec<char>>)
    ensures
        views(r@) == input_candidates(str_views(raw@)),
{
    let mut r: Vec<Vec<char>> = Vec::new();
    let mut i: usize = 0;
    while i < raw.len()
        invariant
            i <= raw.len(),
            views(r@) == input_candidates(str_views(raw@).take(i as int)),
        decreases raw.len() - i,
    {
        let ghost next = str_views(raw@).take(i + 1);
        assert(next.drop_last() == str_views(raw@).take(i as int));
        assert(next.last() == raw@[i as int]@);
        let v = chars_of(raw[i].as_str());
        let ws = split_words(&v);
        let mut part: Vec<Vec<char>> = Vec::new();
        let mut j: usize = 0;
        while j < ws.len()
            invariant
                j <= ws.len(),
                views(part@) == stripped_tokens(views(ws@).take(j as int)),
            decreases ws.len() - j,
        {
            let ghost wn = views(ws@).take(j + 1);
            assert(wn.drop_last() == views(ws@).take(j as int));
            assert(wn.last() == ws@[j as int]@);
            let t = strip_leading_hashes(&ws[j]);
            if t.len() > 0 {
                let ghost d = part@;
                let ghost tv = t@;
                part.push(t);
                assert(views(part@) =~= views(d).push(tv));
            }
            j += 1;
        }
        assert(views(ws@).take(j as int) == views(ws@));
        let ghost d = views(r@);
        let ghost p = views(part@);
        r.append(&mut part);
        assert(views(r@) =~= d + p);
        i += 1;
    }
    assert(str_views(raw@).take(i as int) == str_views(raw@));
    r
}

/// Canonical tags from user input for an explicit edit: every whitespace-separated token,
/// leading `#`s removed, must be a valid tag, else the whole input is refused; repeats are
/// dropped, first occurrences keep their order.
pub fn normalize_input_tags(raw: Vec<String>) -> (r: Result<Vec<String>, String>)
    ensures
        match r {
            Ok(v) => all_valid(input_candidates(str_views(raw@))) && str_views(v@) == dedup(
                normalize_all(input_candidates(str_views(raw@))),
            ),
            Err(e) => !all_valid(input_candidates(str_views(raw@))) && e@
                == invalid_tag_message(),
        },
{
    let cands = input_tokens_of(&raw);
    let ghost c = views(cands@);
    let mut i: usize = 0;
    while i < cands.len()
        invariant
            i <= cands.len(),
            c == views(cands@),
            c == input_candidates(str_views(raw@)),
            forall|j: int| 0 <= j < i ==> (#[trigger] tag_of(c[j])) is Some,
        decreases cands.len() - i,
    {
        assert(c[i as int] == cands@[i as int]@);
        if normalize_tag_chars(&cands[i]).is_none() {
            assert(tag_of(c[i as int]) is None);
            let e = "标签仅允许中英文数字，长度 1-10".to_owned();
            assert(e@ == invalid_tag_message());
            return Err(e);
        }
        i += 1;
    }
    let n = normalize_unique(&cands);
    Ok(strings_of(&n))
}

/// The strictly increasing list of the members of `s`.
pub open spec fn sorted_of(s: Set<Seq<char>>) -> Seq<Seq<char>> {
    choose|q: Seq<Seq<char>>| strictly_sorted(q) && q.to_set() == s
}

/// Two strictly increasing lists with the same members are the same list.
pub proof fn lemma_sorted_unique(a: Seq<Seq<char>>, b: Seq<Seq<char>>)
    requires
        strictly_sorted(a),
        strictly_sorted(b),
        a.to_set() == b.to_set(),
    ensures
        a == b,
    decreases a.len(),
{
    if a.len() == 0 {
        if b.len() > 0 {
            assert(b.to_set().contains(b[0]));
        }
        assert(a =~= b);
    } else {
        assert(a.to_set().contains(a[0]));
        assert(b.len() > 0);
        assert(b.to_set().contains(b[0]));
        assert(b.contains(a[0]));
        assert(a.contains(b[0]));
        if a[0] != b[0] {
            let i = choose|i: int| 0 <= i < a.len() && a[i] == b[0];
            let j = choose|j: int| 0 <= j < b.len() && b[j] == a[0];
            assert(i > 0 && j > 0);
            assert(lex_lt(a[0], a[i]));
            assert(lex_lt(b[0], b[j]));
            lemma_lex_transitive(a[0], b[0], a[0]);
            lemma_lex_irreflexive(a[0]);
        }
        let a1 = a.drop_first();
        let b1 = b.drop_first();
        assert(strictly_sorted(a1)) by {
            assert forall|x: int, y: int| 0 <= x < y < a1.len() implies lex_lt(
                #[trigger] a1[x],
                #[trigger] a1[y],
            ) by {
                assert(a1[x] == a[x + 1] && a1[y] == a[y + 1]);
            }
        }
        assert(strictly_sorted(b1)) by {
            assert forall|x: int, y: int| 0 <= x < y < b1.len() implies lex_lt(
                #[trigger] b1[x],
                #[trigger] b1[y],
            ) by {
                assert(b1[x] == b[x + 1] && b1[y] == b[y + 1]);
            }
        }
        assert(a1.to_set() =~= b1.to_set()) by {
            assert forall|y: Seq<char>| a1.to_set().contains(y) implies b1.to_set().contains(y) by {
                let k = choose|k: int| 0 <= k < a1.len() && a1[k] == y;
                assert(lex_lt(a[0], a[k + 1]));
                assert(b.to_set().contains(y));
                let m = choose|m: int| 0 <= m < b.len() && b[m] == y;
                if m == 0 {
                    lemma_lex_irreflexive(a[0]);
                }
                assert(b1[m - 1] == y);
            }
            assert forall|y: Seq<char>| b1.to_set().contains(y) implies a1.to_set().contains(y) by {
                let k = choose|k: int| 0 <= k < b1.len() && b1[k] == y;
                assert(lex_lt(b[0], b[k + 1]));
                assert(a.to_set().contains(y));
                let m = choose|m: int| 0 <= m < a.len() && a[m] == y;
                if m == 0 {
                    lemma_lex_irreflexive(b[0]);
                }
                assert(a1[m - 1] == y);
            }
        }
        lemma_sorted_unique(a1, b1);
        assert(a =~= seq![a[0]] + a1);
        assert(b =~= seq![b[0]] + b1);
    }
}

/// The tag set after an edit: the canonical base tags with `add` joined and `remove` taken
/// out.
pub open spec fn edit_set(base: Seq<Seq<char>>, add: Seq<Seq<char>>, remove: Seq<Seq<char>>) -> Set<
    Seq<char>,
> {
    normalize_all(base).to_set().union(add.to_set()).difference(remove.to_set())
}

/// The stored tag list after an edit: the edited set in increasing order.
pub open spec fn edit_result(base: Seq<Seq<char>>, add: Seq<Seq<char>>, remove: Seq<Seq<char>>) -> Seq<
    Seq<char>,
> {
    sorted_of(edit_set(base, add, remove))
}

/// Applies one edit to a tag list: set union with `add`, set difference with `remove`,
/// sorted.
pub fn apply_tag_edit(base: &Vec<String>, add: &Vec<String>, remove: &Vec<String>) -> (r: Vec<
    String,
>)
    ensures
        str_views(r@) == edit_result(str_views(base@), str_views(add@), str_views(remove@)),
{
    let b = chars_of_all(base);
    let mut cands = normalize_each(&b);
    let mut a = chars_of_all(add);
    let rm = chars_of_all(remove);
    let ghost c0 = views(cands@);
    let ghost av = views(a@);
    cands.append(&mut a);
    assert(views(cands@) =~= c0 + av);
    let mut kept: Vec<Vec<char>> = Vec::new();
    let mut i: usize = 0;
    while i < cands.len()
        invariant
            i <= cands.len(),
            views(cands@) == c0 + av,
            forall|y: Seq<char>| #[trigger]
                views(kept@).contains(y) <==> (views(cands@).take(i as int).contains(y)
                    && !views(rm@).contains(y)),
        decreases cands.len() - i,
    {
        let ghost pre = views(cands@).take(i as int);
        let ghost next = views(cands@).take(i + 1);
        assert(next =~= pre.push(cands@[i as int]@));
        let ghost k0 = views(kept@);
        let drop = contains_chars(&rm, &cands[i]);
        if !drop {
            kept.push(cands[i].clone());
            assert(views(kept@) =~= k0.push(cands@[i as int]@));
        }
        assert forall|y: Seq<char>| #[trigger] views(kept@).contains(y) <==> (next.contains(y)
            && !views(rm@).contains(y)) by {
            if next.contains(y) {
                let k = choose|k: int| 0 <= k < next.len() && next[k] == y;
                if k < i {
                    assert(pre[k] == y);
                }
            }
            if pre.contains(y) {
                let k = choose|k: int| 0 <= k < pre.len() && pre[k] == y;
                assert(next[k] == y);
            }
            if y == cands@[i as int]@ {
                assert(next[i as int] == y);
            }
            if views(kept@).contains(y) && !k0.contains(y) {
                let k = choose|k: int| 0 <= k < views(kept@).len() && views(kept@)[k] == y;
                if k < k0.len() {
                    assert(k0[k] == y);
                }
            }
            if k0.contains(y) {
                let k = choose|k: int| 0 <= k < k0.len() && k0[k] == y;
                assert(views(kept@)[k] == y);
            }
            if !drop && y == cands@[i as int]@ {
                assert(views(kept@)[k0.len() as int] == y);
            }
        }
        i += 1;
    }
    assert(views(cands@).take(i as int) == views(cands@));
    let sorted = sort_unique(&kept);
    let r = strings_of(&sorted);
    let ghost s = edit_set(str_views(base@), str_views(add@), str_views(remove@));
    assert(views(sorted@).to_set() =~= s) by {
        assert forall|y: Seq<char>| views(sorted@).to_set().contains(y) <==> s.contains(y) by {
            assert(normalize_all(str_views(base@)).to_set().contains(y) <==> c0.contains(y));
            assert(str_views(add@).to_set().contains(y) <==> av.contains(y));
            assert(str_views(remove@).to_set().contains(y) <==> views(rm@).contains(y));
            if (c0 + av).contains(y) {
                let k = choose|k: int| 0 <= k < (c0 + av).len() && (c0 + av)[k] == y;
                if k < c0.len() {
                    assert(c0[k] == y);
                } else {
                    assert(av[k - c0.len()] == y);
                }
            }
            if c0.contains(y) {
                let k = choose|k: int| 0 <= k < c0.len() && c0[k] == y;
                assert((c0 + av)[k] == y);
            }
            if av.contains(y) {
                let k = choose|k: int| 0 <= k < av.len() && av[k] == y;
                assert((c0 + av)[c0.len() + k] == y);
            }
        }
    }
    proof {
        let q = sorted_of(s);
        assert(strictly_sorted(q) && q.to_set() == s);
        lemma_sorted_unique(q, views(sorted@));
    }
    r
}


/// Why a tag edit was refused.
#[derive(Debug, Clone, Copy, PartialEq, Eq, Structural)]
pub enum TagEditError {
    NoPaths,
    InvalidTag,
    EmptyTags,
    NoDirectory,
}

/// The message of each edit error.
pub open spec fn edit_error_message(e: TagEditError) -> Seq<char> {
    match e {
        TagEditError::NoPaths => "未选择任何提示词"@,
        TagEditError::InvalidTag => invalid_tag_message(),
        TagEditError::EmptyTags => "标签不能为空"@,
        TagEditError::NoDirectory => "提示词目录未配置"@,
    }
}

impl TagEditError {
    /// The message shown to the user.
    pub fn message(&self) -> (r: &'static str)
        ensures
            r@ == edit_error_message(*self),
    {
        match self {
            TagEditError::NoPaths => "未选择任何提示词",
            TagEditError::InvalidTag => "标签仅允许中英文数字，长度 1-10",
            TagEditError::EmptyTags => "标签不能为空",
            TagEditError::NoDirectory => "提示词目录未配置",
        }
    }
}

/// The canonical tags of an edit input, if every token is valid.
pub open spec fn input_tags(raw: Seq<Seq<char>>) -> Option<Seq<Seq<char>>> {
    if all_valid(input_candidates(raw)) {
        Some(dedup(normalize_all(input_candidates(raw))))
    } else {
        None
    }
}

/// The checks that come before any change, in order: some path chosen, every tag valid,
/// something to add or remove, a prompts directory configured.
pub open spec fn prepared_edit(
    paths: Seq<Seq<char>>,
    add: Seq<Seq<char>>,
    remove: Seq<Seq<char>>,
    root: Seq<char>,
) -> Result<(Seq<Seq<char>>, Seq<Seq<char>>), TagEditError> {
    if paths.len() == 0 {
        Err(TagEditError::NoPaths)
    } else if input_tags(add) is None || input_tags(remove) is None {
        Err(TagEditError::InvalidTag)
    } else if input_tags(add)->0.len() == 0 && input_tags(remove)->0.len() == 0 {
        Err(TagEditError::EmptyTags)
    } else if trim(root).len() == 0 {
        Err(TagEditError::NoDirectory)
    } else {
        Ok((input_tags(add)->0, input_tags(remove)->0))
    }
}

/// A prepared edit as sequences of characters.
pub open spec fn prepared_view(r: Result<(Vec<String>, Vec<String>), TagEditError>) -> Result<
    (Seq<Seq<char>>, Seq<Seq<char>>),
    TagEditError,
> {
    match r {
        Ok((a, b)) => Ok((str_views(a@), str_views(b@))),
        Err(e) => Err(e),
    }
}

/// Validates a tag edit request and canonicalises its tags; nothing is changed here.
pub fn prepare_tag_edit(paths: &Vec<String>, add: Vec<String>, remove: Vec<String>, root: &str) -> (r:
    Result<(Vec<String>, Vec<String>), TagEditError>)
    ensures
        prepared_view(r) == prepared_edit(str_views(paths@), str_views(add@), str_views(remove@), root@),
{
    if paths.len() == 0 {
        return Err(TagEditError::NoPaths);
    }
    let a = match normalize_input_tags(add) {
        Ok(v) => v,
        Err(_) => {
            return Err(TagEditError::InvalidTag);
        },
    };
    let b = match normalize_input_tags(remove) {
        Ok(v) => v,
        Err(_) => {
            return Err(TagEditError::InvalidTag);
        },
    };
    if a.len() == 0 && b.len() == 0 {
        return Err(TagEditError::EmptyTags);
    }
    let t = trim_str(root);
    if t.len() == 0 {
        return Err(TagEditError::NoDirectory);
    }
    Ok((a, b))
}

/// The tags of the last document whose id is `id`; empty if there is none.
pub open spec fn doc_tags(docs: Seq<PromptView>, id: Seq<char>) -> Seq<Seq<char>>
    decreases docs.len(),
{
    if docs.len() == 0 {
        Seq::empty()
    } else if docs.last().id == id {
        docs.last().tags
    } else {
        doc_tags(docs.drop_last(), id)
    }
}

/// What an edit starts from for a path: its explicit entry, else the tags its document
/// currently has.
pub open spec fn base_tags(
    m: Map<Seq<char>, Seq<Seq<char>>>,
    key: Seq<char>,
    path: Seq<char>,
    docs: Seq<PromptView>,
) -> Seq<Seq<char>> {
    if m.contains_key(key) {
        m[key]
    } else {
        doc_tags(docs, path)
    }
}

/// The explicit entries after editing each path in turn.
pub open spec fn edited_map(
    m: Map<Seq<char>, Seq<Seq<char>>>,
    root: Seq<char>,
    paths: Seq<Seq<char>>,
    add: Seq<Seq<char>>,
    remove: Seq<Seq<char>>,
    docs: Seq<PromptView>,
) -> Map<Seq<char>, Seq<Seq<char>>>
    decreases paths.len(),
{
    if paths.len() == 0 {
        m
    } else {
        let m1 = edited_map(m, root, paths.drop_last(), add, remove, docs);
        let key = key_of(root, paths.last());
        m1.insert(key, edit_result(base_tags(m1, key, paths.last(), docs), add, remove))
    }
}

fn tags_of_document(prompts: &[PromptEntry], id: &String) -> (r: Vec<String>)
    ensures
        str_views(r@) == doc_tags(prompts@.map_values(|e: PromptEntry| e@), id@),
{
    let ghost docs = prompts@.map_values(|e: PromptEntry| e@);
    let mut i = prompts.len();
    assert(docs.take(i as int) == docs);
    while i > 0
        invariant
            i <= prompts.len(),
            docs == prompts@.map_values(|e: PromptEntry| e@),
            doc_tags(docs, id@) == doc_tags(docs.take(i as int), id@),
        decreases i,
    {
        let ghost cur = docs.take(i as int);
        assert(cur.drop_last() == docs.take(i - 1));
        assert(cur.last() == prompts@[i - 1]@);
        if prompts[i - 1].id == *id {
            return copy_strings(&prompts[i - 1].tags);
        }
        i -= 1;
    }
    assert(docs.take(0) =~= Seq::<PromptView>::empty());
    Vec::new()
}

/// Applies an edit to the explicit entry of each path in turn: its current entry, or else
/// its document's tags, joined with `add`, without `remove`, sorted.
pub fn apply_tag_edits(
    meta: &mut TagsMeta,
    root: &str,
    paths: &Vec<String>,
    add: &Vec<String>,
    remove: &Vec<String>,
    prompts: &[PromptEntry],
)
    ensures
        final(meta).tags_map() == edited_map(
            old(meta).tags_map(),
            root@,
            str_views(paths@),
            str_views(add@),
            str_views(remove@),
            prompts@.map_values(|e: PromptEntry| e@),
        ),
        final(meta).version == old(meta).version,
        final(meta).updated_at == old(meta).updated_at,
{
    let ghost m0 = meta.tags_map();
    let ghost docs = prompts@.map_values(|e: PromptEntry| e@);
    let mut i: usize = 0;
    while i < paths.len()
        invariant
            i <= paths.len(),
            docs == prompts@.map_values(|e: PromptEntry| e@),
            meta.version == old(meta).version,
            meta.updated_at == old(meta).updated_at,
            m0 == old(meta).tags_map(),
            meta.tags_map() == edited_map(
                m0,
                root@,
                str_views(paths@).take(i as int),
                str_views(add@),
                str_views(remove@),
                docs,
            ),
        decreases paths.len() - i,
    {
        let ghost next = str_views(paths@).take(i + 1);
        assert(next.drop_last() == str_views(paths@).take(i as int));
        assert(next.last() == paths@[i as int]@);
        let key = path_to_key(root, paths[i].as_str());
        let base = match meta.get(key.as_str()) {
            Some(existing) => existing,
            None => tags_of_document(prompts, &paths[i]),
        };
        let next_tags = apply_tag_edit(&base, add, remove);
        meta.insert(key, next_tags);
        i += 1;
    }
    assert(str_views(paths@).take(i as int) == str_views(paths@));
}

} // verus!
