use vstd::prelude::*;

use crate::score::{join_words, opt_i64, prompt_cost, score_prompt, MAX_TERMS, MAX_TEXT_BYTES};
use crate::tags::{
    chars_of_all, contains_chars, hash_cands, hash_tokens, normalize_all, normalize_each, strings_of,
};
use crate::text::{
    byte_len, chars_of, lemma_byte_len_prefix, lemma_byte_len_push, lower_of, split_words,
    copy_strings, str_views, string_of, to_lowercase, trim, trim_str, utf8_width, views, words,
};

verus! {

/// One indexed prompt file.
#[derive(Clone, Debug, PartialEq, Eq)]
pub struct PromptEntry {
    pub id: String,
    pub title: String,
    pub body: String,
    pub preview: String,
    pub tags: Vec<String>,
    pub path: String,
}

/// What a `PromptEntry` holds, as sequences of characters.
pub struct PromptView {
    pub id: Seq<char>,
    pub title: Seq<char>,
    pub body: Seq<char>,
    pub preview: Seq<char>,
    pub tags: Seq<Seq<char>>,
    pub path: Seq<char>,
}

impl View for PromptEntry {
    type V = PromptView;

    open spec fn view(&self) -> PromptView {
        PromptView {
            id: self.id@,
            title: self.title@,
            body: self.body@,
            preview: self.preview@,
            tags: str_views(self.tags@),
            path: self.path@,
        }
    }
}

/// The views of a list of entries.
pub open spec fn entry_views(v: Seq<PromptEntry>) -> Seq<PromptView> {
    v.map_values(|e: PromptEntry| e@)
}

impl PromptEntry {
    /// A copy with the same contents.
    pub fn duplicate(&self) -> (r: PromptEntry)
        ensures
            r@ == self@,
    {
        PromptEntry {
            id: self.id.clone(),
            title: self.title.clone(),
            body: self.body.clone(),
            preview: self.preview.clone(),
            tags: copy_strings(&self.tags),
            path: self.path.clone(),
        }
    }
}

/// The tags haystack: the tags joined by spaces, lower-cased.
pub open spec fn tag_text(p: PromptView) -> Seq<char> {
    lower_of(join_words(p.tags))
}

/// The title haystack.
pub open spec fn title_text(p: PromptView) -> Seq<char> {
    lower_of(p.title)
}

/// The full haystack: title, preview, body and tags haystack, space separated, lower-cased.
pub open spec fn full_text(p: PromptView) -> Seq<char> {
    lower_of(p.title + seq![' '] + p.preview + seq![' '] + p.body + seq![' '] + tag_text(p))
}

/// The tokens that do not start with `#`.
pub open spec fn plain_words(ws: Seq<Seq<char>>) -> Seq<Seq<char>>
    decreases ws.len(),
{
    if ws.len() == 0 {
        Seq::empty()
    } else {
        let r = plain_words(ws.drop_last());
        let w = ws.last();
        if w.len() > 0 && w[0] == '#' {
            r
        } else {
            r.push(w)
        }
    }
}

/// Tag filters of a query: its `#` tokens, canonicalised; invalid ones dropped.
pub open spec fn query_tags(q: Seq<char>) -> Seq<Seq<char>> {
    normalize_all(hash_cands(words(q)))
}

/// Free-text terms of a query, in order.
pub open spec fn query_terms(q: Seq<char>) -> Seq<Seq<char>> {
    plain_words(words(q))
}

/// Whether the document carries every tag filter, exactly.
pub open spec fn has_all_tags(p: PromptView, tq: Seq<Seq<char>>) -> bool {
    forall|i: int| 0 <= i < tq.len() ==> #[trigger] p.tags.contains(tq[i])
}

/// Whether the haystacks of `p` and the number of terms are small enough to be scored.
pub open spec fn within_limits(p: PromptView, terms: Seq<Seq<char>>) -> bool {
    &&& terms.len() <= MAX_TERMS
    &&& byte_len(full_text(p)) <= MAX_TEXT_BYTES
    &&& byte_len(title_text(p)) <= MAX_TEXT_BYTES
    &&& byte_len(tag_text(p)) <= MAX_TEXT_BYTES
}

/// The score of one document for a parsed query; `None` when it is filtered out.
pub open spec fn doc_score(p: PromptView, tq: Seq<Seq<char>>, terms: Seq<Seq<char>>) -> Option<
    int,
> {
    if !has_all_tags(p, tq) {
        None
    } else if terms.len() == 0 {
        Some(0)
    } else if !within_limits(p, terms) {
        None
    } else {
        prompt_cost(full_text(p), title_text(p), tag_text(p), terms)
    }
}

/// The surviving documents as (score, index) pairs, in index order.
pub open spec fn scored(docs: Seq<PromptView>, tq: Seq<Seq<char>>, terms: Seq<Seq<char>>) -> Seq<
    (int, int),
>
    decreases docs.len(),
{
    if docs.len() == 0 {
        Seq::empty()
    } else {
        let r = scored(docs.drop_last(), tq, terms);
        match doc_score(docs.last(), tq, terms) {
            Some(x) => r.push((x, docs.len() - 1)),
            None => r,
        }
    }
}

/// First position at or after `j` whose score exceeds `key`; `s.len()` if there is none.
pub open spec fn first_greater(s: Seq<(int, int)>, key: int, j: int) -> int
    decreases s.len() - j,
{
    if j < 0 || j >= s.len() {
        s.len() as int
    } else if s[j].0 > key {
        j
    } else {
        first_greater(s, key, j + 1)
    }
}

/// Stable sort by score: each pair goes after every earlier pair whose score is not greater.
pub open spec fn stable_sort(s: Seq<(int, int)>) -> Seq<(int, int)>
    decreases s.len(),
{
    if s.len() == 0 {
        Seq::empty()
    } else {
        let r = stable_sort(s.drop_last());
        r.insert(first_greater(r, s.last().0, 0), s.last())
    }
}

/// The smaller of a limit and a length.
pub open spec fn min_len(limit: int, n: int) -> int {
    if limit < n {
        limit
    } else {
        n
    }
}

/// The lower-cased, trimmed query.
pub open spec fn query_text(q: Seq<char>) -> Seq<char> {
    lower_of(trim(q))
}

/// What a search returns: with an empty query the first `limit` documents; otherwise the
/// documents that pass the tag filters and match every term, best score first (ties in
/// index order), at most `limit` of them.
pub open spec fn search_result(docs: Seq<PromptView>, q: Seq<char>, limit: int) -> Seq<PromptView> {
    let ql = query_text(q);
    if ql.len() == 0 {
        docs.take(min_len(limit, docs.len() as int))
    } else {
        let s = stable_sort(scored(docs, query_tags(ql), query_terms(ql)));
        s.take(min_len(limit, s.len() as int)).map_values(|x: (int, int)| docs[x.1])
    }
}

proof fn lemma_first_greater(s: Seq<(int, int)>, key: int, j: int)
    requires
        0 <= j <= s.len(),
    ensures
        j <= first_greater(s, key, j) <= s.len(),
        forall|i: int| j <= i < first_greater(s, key, j) ==> #[trigger] s[i].0 <= key,
        first_greater(s, key, j) < s.len() ==> s[first_greater(s, key, j)].0 > key,
    decreases s.len() - j,
{
    if j < s.len() && s[j].0 <= key {
        lemma_first_greater(s, key, j + 1);
    }
}

/// Whether `s` is ordered by score, ties by index.
pub open spec fn ranked_order(s: Seq<(int, int)>) -> bool {
    forall|i: int, j: int|
        0 <= i < j < s.len() ==> (#[trigger] s[i]).0 < (#[trigger] s[j]).0 || (s[i].0 == s[j].0
            && s[i].1 < s[j].1)
}

/// Sorting pairs whose indices increase orders them by score, ties by index, and keeps
/// exactly the same pairs.
pub proof fn lemma_stable_sort_ranked(s: Seq<(int, int)>)
    requires
        forall|i: int, j: int| 0 <= i < j < s.len() ==> (#[trigger] s[i]).1 < (#[trigger] s[j]).1,
    ensures
        stable_sort(s).len() == s.len(),
        ranked_order(stable_sort(s)),
        forall|x: (int, int)| #[trigger] stable_sort(s).contains(x) <==> s.contains(x),
    decreases s.len(),
{
    if s.len() > 0 {
        let s0 = s.drop_last();
        let x = s.last();
        lemma_stable_sort_ranked(s0);
        let r = stable_sort(s0);
        let p = first_greater(r, x.0, 0);
        lemma_first_greater(r, x.0, 0);
        let t = r.insert(p, x);
        assert(stable_sort(s) == t);
        assert forall|k: int| 0 <= k < r.len() implies #[trigger] r[k].1 < x.1 by {
            assert(r.contains(r[k]));
            assert(s0.contains(r[k]));
            let m = choose|m: int| 0 <= m < s0.len() && s0[m] == r[k];
            assert(s[m] == s0[m]);
        }
        assert forall|i: int, j: int| 0 <= i < j < t.len() implies (#[trigger] t[i]).0 < (
        #[trigger] t[j]).0 || (t[i].0 == t[j].0 && t[i].1 < t[j].1) by {
            if j < p {
            } else if j == p {
                assert(t[i] == r[i]);
            } else if i < p {
                assert(t[j] == r[j - 1]);
            } else if i == p {
                assert(t[j] == r[j - 1]);
                if j - 1 > p {
                    assert(r[p].0 < r[j - 1].0 || r[p].0 == r[j - 1].0);
                }
            } else {
                assert(t[i] == r[i - 1] && t[j] == r[j - 1]);
            }
        }
        assert forall|y: (int, int)| #[trigger] t.contains(y) <==> s.contains(y) by {
            if t.contains(y) {
                let k = choose|k: int| 0 <= k < t.len() && t[k] == y;
                if k == p {
                    assert(s[s.len() - 1] == y);
                } else {
                    let kk = if k < p {
                        k
                    } else {
                        k - 1
                    };
                    assert(r[kk] == y);
                    assert(r.contains(y));
                    let m = choose|m: int| 0 <= m < s0.len() && s0[m] == y;
                    assert(s[m] == y);
                }
            }
            if s.contains(y) {
                let m = choose|m: int| 0 <= m < s.len() && s[m] == y;
                if m == s.len() - 1 {
                    assert(t[p] == y);
                } else {
                    assert(s0[m] == y);
                    assert(s0.contains(y));
                    assert(r.contains(y));
                    let k = choose|k: int| 0 <= k < r.len() && r[k] == y;
                    if k < p {
                        assert(t[k] == y);
                    } else {
                        assert(t[k + 1] == y);
                    }
                }
            }
        }
    }
}

proof fn lemma_scored_indices(docs: Seq<PromptView>, tq: Seq<Seq<char>>, terms: Seq<Seq<char>>)
    ensures
        forall|i: int| 0 <= i < scored(docs, tq, terms).len() ==> 0 <= (#[trigger] scored(
            docs,
            tq,
            terms,
        )[i]).1 < docs.len(),
        forall|i: int, j: int|
            0 <= i < j < scored(docs, tq, terms).len() ==> (#[trigger] scored(docs, tq, terms)[i]).1
                < (#[trigger] scored(docs, tq, terms)[j]).1,
    decreases docs.len(),
{
    if docs.len() > 0 {
        let d0 = docs.drop_last();
        lemma_scored_indices(d0, tq, terms);
        let r = scored(d0, tq, terms);
        let t = scored(docs, tq, terms);
        assert forall|i: int| 0 <= i < t.len() implies 0 <= (#[trigger] t[i]).1 < docs.len() by {
            if i < r.len() {
                assert(t[i] == r[i]);
            }
        }
        assert forall|i: int, j: int| 0 <= i < j < t.len() implies (#[trigger] t[i]).1 < (
        #[trigger] t[j]).1 by {
            assert(t[i] == r[i]);
            if j < r.len() {
                assert(t[j] == r[j]);
            }
        }
    }
}

/// The ranking of a query: ordered by score, lower first, ties in document order; it holds
/// each surviving document once, with its score.
pub proof fn lemma_ranking(docs: Seq<PromptView>, q: Seq<char>)
    ensures
        ({
            let ql = query_text(q);
            let tq = query_tags(ql);
            let terms = query_terms(ql);
            let r = stable_sort(scored(docs, tq, terms));
            &&& ranked_order(r)
            &&& forall|k: int|
                0 <= k < r.len() ==> 0 <= (#[trigger] r[k]).1 < docs.len() && doc_score(
                    docs[r[k].1],
                    tq,
                    terms,
                ) == Some(r[k].0)
            &&& forall|i: int|
                0 <= i < docs.len() && (#[trigger] doc_score(docs[i], tq, terms)) is Some
                    ==> r.contains((doc_score(docs[i], tq, terms)->0, i))
        }),
{
    let ql = query_text(q);
    let tq = query_tags(ql);
    let terms = query_terms(ql);
    let sc = scored(docs, tq, terms);
    lemma_scored_indices(docs, tq, terms);
    lemma_stable_sort_ranked(sc);
    lemma_scored_members(docs, tq, terms);
    let r = stable_sort(sc);
    assert forall|k: int| 0 <= k < r.len() implies 0 <= (#[trigger] r[k]).1 < docs.len()
        && doc_score(docs[r[k].1], tq, terms) == Some(r[k].0) by {
        assert(r.contains(r[k]));
        assert(sc.contains(r[k]));
        let m = choose|m: int| 0 <= m < sc.len() && sc[m] == r[k];
        assert(sc[m].1 < docs.len());
    }
}

proof fn lemma_scored_members(docs: Seq<PromptView>, tq: Seq<Seq<char>>, terms: Seq<Seq<char>>)
    ensures
        forall|x: (int, int)| #[trigger]
            scored(docs, tq, terms).contains(x) <==> (0 <= x.1 < docs.len() && doc_score(
                docs[x.1],
                tq,
                terms,
            ) == Some(x.0)),
    decreases docs.len(),
{
    if docs.len() > 0 {
        let d0 = docs.drop_last();
        lemma_scored_members(d0, tq, terms);
        let r = scored(d0, tq, terms);
        let n = docs.len() - 1;
        assert forall|x: (int, int)| #[trigger]
            scored(docs, tq, terms).contains(x) <==> (0 <= x.1 < docs.len() && doc_score(
                docs[x.1],
                tq,
                terms,
            ) == Some(x.0)) by {
            if 0 <= x.1 < n {
                assert(docs[x.1] == d0[x.1]);
            }
            match doc_score(docs.last(), tq, terms) {
                Some(v) => {
                    let t = r.push((v, n));
                    if t.contains(x) {
                        let k = choose|k: int| 0 <= k < t.len() && t[k] == x;
                        if k < r.len() {
                            assert(r[k] == x);
                            assert(r.contains(x));
                        }
                    }
                    if r.contains(x) {
                        let k = choose|k: int| 0 <= k < r.len() && r[k] == x;
                        assert(t[k] == x);
                    }
                    if x == (v, n) {
                        assert(t[r.len() as int] == x);
                    }
                },
                None => {},
            }
        }
    }
}

/// The tokens that do not start with `#`.
pub fn plain_tokens(ws: &Vec<Vec<char>>) -> (r: Vec<Vec<char>>)
    ensures
        views(r@) == plain_words(views(ws@)),
{
    let mut r: Vec<Vec<char>> = Vec::new();
    let mut i: usize = 0;
    while i < ws.len()
        invariant
            i <= ws.len(),
            views(r@) == plain_words(views(ws@).take(i as int)),
        decreases ws.len() - i,
    {
        let ghost pre = views(ws@).take(i as int);
        let ghost next = views(ws@).take(i + 1);
        assert(next.drop_last() == pre);
        assert(next.last() == ws@[i as int]@);
        let w = &ws[i];
        if !(w.len() > 0 && w[0] == '#') {
            let ghost d = r@;
            let c = w.clone();
            assert(c@ == w@);
            r.push(c);
            assert(views(r@) =~= views(d).push(w@));
        }
        i += 1;
    }
    assert(views(ws@).take(i as int) == views(ws@));
    r
}

/// Splits a query into tag filters and free-text terms.
pub fn split_query_chars(q: &Vec<char>) -> (r: (Vec<Vec<char>>, Vec<Vec<char>>))
    ensures
        views(r.0@) == query_tags(q@),
        views(r.1@) == query_terms(q@),
{
    let ws = split_words(q);
    let hs = hash_tokens(&ws);
    let tags = normalize_each(&hs);
    let terms = plain_tokens(&ws);
    (tags, terms)
}

/// Splits a query into tag filters (`#` tokens, canonicalised, invalid ones dropped) and
/// free-text terms.
pub fn split_query(query: &str) -> (r: (Vec<String>, Vec<String>))
    ensures
        str_views(r.0@) == query_tags(query@),
        str_views(r.1@) == query_terms(query@),
{
    let q = chars_of(query);
    let (t, m) = split_query_chars(&q);
    (strings_of(&t), strings_of(&m))
}

fn has_all_tags_chars(tags: &Vec<Vec<char>>, tq: &Vec<Vec<char>>) -> (r: bool)
    ensures
        r == forall|i: int| 0 <= i < tq.len() ==> #[trigger] views(tags@).contains(views(tq@)[i]),
{
    let mut i: usize = 0;
    while i < tq.len()
        invariant
            i <= tq.len(),
            forall|j: int| 0 <= j < i ==> #[trigger] views(tags@).contains(views(tq@)[j]),
        decreases tq.len() - i,
    {
        assert(views(tq@)[i as int] == tq@[i as int]@);
        if !contains_chars(tags, &tq[i]) {
            return false;
        }
        i += 1;
    }
    true
}

/// Whether the document carries every one of the given tags, exactly.
pub fn tags_match(prompt: &PromptEntry, tags: &[String]) -> (r: bool)
    ensures
        r == has_all_tags(prompt@, str_views(tags@)),
{
    let own = chars_of_all(&prompt.tags);
    let mut tq: Vec<Vec<char>> = Vec::new();
    let mut i: usize = 0;
    while i < tags.len()
        invariant
            i <= tags.len(),
            views(tq@) == str_views(tags@).take(i as int),
        decreases tags.len() - i,
    {
        let ghost d = tq@;
        tq.push(chars_of(tags[i].as_str()));
        assert(views(tq@) =~= views(d).push(tags@[i as int]@));
        assert(str_views(tags@).take(i + 1) =~= str_views(tags@).take(i as int).push(
            tags@[i as int]@,
        ));
        i += 1;
    }
    assert(str_views(tags@).take(i as int) =~= str_views(tags@));
    let r = has_all_tags_chars(&own, &tq);
    assert(views(own@) == prompt@.tags);
    r
}

/// Appends the characters of `s` to `v`.
pub fn extend_chars(v: &mut Vec<char>, s: &str)
    ensures
        final(v)@ == old(v)@ + s@,
{
    let mut c = chars_of(s);
    v.append(&mut c);
}

/// The words joined by single spaces.
pub fn join_chars(ws: &Vec<String>) -> (r: Vec<char>)
    ensures
        r@ == join_words(str_views(ws@)),
{
    let mut r: Vec<char> = Vec::new();
    let mut i: usize = 0;
    while i < ws.len()
        invariant
            i <= ws.len(),
            r@ == join_words(str_views(ws@).take(i as int)),
        decreases ws.len() - i,
    {
        let ghost next = str_views(ws@).take(i + 1);
        assert(next.drop_last() == str_views(ws@).take(i as int));
        assert(next.last() == ws@[i as int]@);
        if i > 0 {
            r.push(' ');
        }
        extend_chars(&mut r, ws[i].as_str());
        proof {
            if i == 0 {
                assert(r@ == next[0]);
            }
        }
        i += 1;
    }
    assert(str_views(ws@).take(i as int) == str_views(ws@));
    r
}

/// Whether the UTF-8 encoding of `v` takes at most `max` bytes.
pub fn fits_in_bytes(v: &Vec<char>, max: usize) -> (r: bool)
    requires
        max <= MAX_TEXT_BYTES,
    ensures
        r == (byte_len(v@) <= max),
{
    let mut n: usize = 0;
    let mut i: usize = 0;
    assert(v@.take(0) =~= Seq::<char>::empty());
    while i < v.len()
        invariant
            i <= v.len(),
            max <= MAX_TEXT_BYTES,
            n as int == byte_len(v@.take(i as int)),
            n <= max,
        decreases v.len() - i,
    {
        proof {
            assert(v@.take(i + 1) == v@.take(i as int).push(v@[i as int]));
            lemma_byte_len_push(v@.take(i as int), v@[i as int]);
        }
        n = n + utf8_width(v[i]);
        i += 1;
        if n > max {
            proof {
                lemma_byte_len_prefix(v@, i as int, v.len() as int);
                assert(v@.take(v.len() as int) == v@);
            }
            return false;
        }
    }
    assert(v@.take(i as int) == v@);
    true
}

/// Lower-cases a character sequence.
fn lower_chars(v: &Vec<char>) -> (r: Vec<char>)
    ensures
        r@ == lower_of(v@),
        v@.len() == 0 ==> r@.len() == 0,
{
    let s = string_of(v);
    let l = to_lowercase(s.as_str());
    chars_of(l.as_str())
}

/// The score of one document for a parsed query, or `None` when it is filtered out.
fn score_document(p: &PromptEntry, tq: &Vec<Vec<char>>, terms: &Vec<Vec<char>>) -> (r: Option<
    i64,
>)
    ensures
        opt_i64(r) == doc_score(p@, views(tq@), views(terms@)),
{
    let own = chars_of_all(&p.tags);
    if !has_all_tags_chars(&own, tq) {
        return None;
    }
    if terms.len() == 0 {
        return Some(0);
    }
    let joined = join_chars(&p.tags);
    let tag_h = lower_chars(&joined);
    let title_v = chars_of(p.title.as_str());
    let title_h = lower_chars(&title_v);
    let mut full: Vec<char> = Vec::new();
    extend_chars(&mut full, p.title.as_str());
    full.push(' ');
    extend_chars(&mut full, p.preview.as_str());
    full.push(' ');
    extend_chars(&mut full, p.body.as_str());
    full.push(' ');
    let mut tag_copy = tag_h.clone();
    full.append(&mut tag_copy);
    assert(full@ =~= p@.title + seq![' '] + p@.preview + seq![' '] + p@.body + seq![' ']
        + tag_text(p@));
    let full_h = lower_chars(&full);
    if terms.len() > MAX_TERMS || !fits_in_bytes(&full_h, MAX_TEXT_BYTES) || !fits_in_bytes(
        &title_h,
        MAX_TEXT_BYTES,
    ) || !fits_in_bytes(&tag_h, MAX_TEXT_BYTES) {
        return None;
    }
    score_prompt(&full_h, &title_h, &tag_h, terms)
}

/// Machine (score, index) pairs as mathematical ones.
pub open spec fn pair_views(v: Seq<(i64, usize)>) -> Seq<(int, int)> {
    v.map_values(|x: (i64, usize)| (x.0 as int, x.1 as int))
}

/// Inserts `x` after every entry whose score is not greater than its own.
fn insert_stable(v: &mut Vec<(i64, usize)>, x: (i64, usize))
    ensures
        pair_views(final(v)@) == pair_views(old(v)@).insert(
            first_greater(pair_views(old(v)@), x.0 as int, 0),
            (x.0 as int, x.1 as int),
        ),
{
    let ghost pv = pair_views(v@);
    let mut j: usize = 0;
    while j < v.len() && v[j].0 <= x.0
        invariant
            j <= v.len(),
            pv == pair_views(v@),
            first_greater(pv, x.0 as int, 0) == first_greater(pv, x.0 as int, j as int),
        decreases v.len() - j,
    {
        j += 1;
    }
    let ghost old_v = v@;
    v.insert(j, x);
    assert(pair_views(v@) =~= pair_views(old_v).insert(j as int, (x.0 as int, x.1 as int)));
}

/// Ranked search over `prompts`: an empty query (after trimming) gives the first `limit`
/// documents unchanged; otherwise `#` tokens filter by exact tag and the other tokens are
/// scored, best first, ties in index order.
/// A document whose lower-cased haystacks exceed `MAX_TEXT_BYTES` bytes, or a query with
/// more than `MAX_TERMS` terms, matches no free-text query.
pub fn search_prompts(prompts: &[PromptEntry], query: &str, limit: usize) -> (r: Vec<PromptEntry>)
    ensures
        entry_views(r@) == search_result(entry_views(prompts@), query@, limit as int),
        trim(query@).len() == 0 ==> entry_views(r@) == entry_views(prompts@).take(
            min_len(limit as int, prompts@.len() as int),
        ),
{
    let ghost docs = entry_views(prompts@);
    let trimmed = trim_str(query);
    let ql = lower_chars(&trimmed);
    let mut out: Vec<PromptEntry> = Vec::new();
    if ql.len() == 0 {
        let mut i: usize = 0;
        while i < prompts.len() && i < limit
            invariant
                i <= prompts.len(),
                i <= limit,
                docs == entry_views(prompts@),
                entry_views(out@) == docs.take(i as int),
            decreases prompts.len() - i,
        {
            let e = prompts[i].duplicate();
            let ghost d = out@;
            out.push(e);
            assert(entry_views(out@) =~= entry_views(d).push(prompts@[i as int]@));
            assert(docs.take(i + 1) =~= docs.take(i as int).push(docs[i as int]));
            i += 1;
        }
        assert(i == min_len(limit as int, docs.len() as int));
        return out;
    }
    let (tq, terms) = split_query_chars(&ql);
    let ghost vtq = views(tq@);
    let ghost vterms = views(terms@);
    let mut results: Vec<(i64, usize)> = Vec::new();
    let mut i: usize = 0;
    while i < prompts.len()
        invariant
            i <= prompts.len(),
            docs == entry_views(prompts@),
            vtq == views(tq@),
            vterms == views(terms@),
            pair_views(results@) == stable_sort(scored(docs.take(i as int), vtq, vterms)),
            forall|k: int| 0 <= k < results.len() ==> #[trigger] results@[k].1 < i,
        decreases prompts.len() - i,
    {
        let ghost pre = docs.take(i as int);
        let ghost next = docs.take(i + 1);
        assert(next.drop_last() == pre);
        assert(next.last() == prompts@[i as int]@);
        match score_document(&prompts[i], &tq, &terms) {
            Some(sc) => {
                assert(scored(next, vtq, vterms) == scored(pre, vtq, vterms).push(
                    (sc as int, i as int),
                ));
                assert(scored(next, vtq, vterms).drop_last() == scored(pre, vtq, vterms));
                let ghost old_r = results@;
                insert_stable(&mut results, (sc, i));
                assert forall|k: int| 0 <= k < results.len() implies #[trigger] results@[k].1 < i
                    + 1 by {
                    let pr = pair_views(results@);
                    let po = pair_views(old_r);
                    let j = first_greater(po, sc as int, 0);
                    lemma_first_greater(po, sc as int, 0);
                    assert(pr == po.insert(j, (sc as int, i as int)));
                    assert(pr.len() == results@.len());
                    assert(po.len() == old_r.len());
                    assert(pr[k].1 == results@[k].1);
                    if k < j {
                        assert(po[k].1 == old_r[k].1);
                    } else if k > j {
                        assert(po[k - 1].1 == old_r[k - 1].1);
                    }
                }
            },
            None => {},
        }
        i += 1;
    }
    assert(docs.take(i as int) == docs);
    let mut k: usize = 0;
    while k < results.len() && k < limit
        invariant
            k <= results.len(),
            k <= limit,
            i == prompts.len(),
            docs == entry_views(prompts@),
            forall|j: int| 0 <= j < results.len() ==> #[trigger] results@[j].1 < i,
            entry_views(out@) == pair_views(results@).take(k as int).map_values(
                |x: (int, int)| docs[x.1],
            ),
        decreases results.len() - k,
    {
        let idx = results[k].1;
        let e = prompts[idx].duplicate();
        let ghost d = out@;
        out.push(e);
        assert(entry_views(out@) =~= entry_views(d).push(docs[idx as int]));
        assert(pair_views(results@).take(k + 1).map_values(|x: (int, int)| docs[x.1])
            =~= pair_views(results@).take(k as int).map_values(|x: (int, int)| docs[x.1]).push(
            docs[idx as int],
        ));
        k += 1;
    }
    out
}

} // verus!
