use vstd::prelude::*;

use crate::text::{
    ascii_lower, chars_of, is_ascii_alnum, is_ascii_alphanumeric, str_views, string_of,
    is_ws, lemma_trim_noop, lemma_trim_range, split_words, sub_vec, to_ascii_lower, trim,
    trim_chars, views, words,
};

verus! {

/// Longest tag, in characters.
pub const MAX_TAG_CHARS: usize = 10;

/// A character a tag may hold: an ASCII letter or digit, or a CJK unified ideograph.
pub open spec fn allowed_tag_char(c: char) -> bool {
    is_ascii_alnum(c) || ('\u{4E00}' <= c && c <= '\u{9FFF}')
}

/// The canonical form of a raw tag, if it has one: trimmed, 1 to 10 allowed
/// characters, ASCII letters folded to lower case.
pub open spec fn tag_of(raw: Seq<char>) -> Option<Seq<char>> {
    let t = trim(raw);
    if t.len() == 0 || t.len() > MAX_TAG_CHARS || exists|i: int|
        0 <= i < t.len() && !allowed_tag_char(#[trigger] t[i]) {
        None
    } else {
        Some(ascii_lower(t))
    }
}

/// An optional string as an optional sequence of characters.
pub open spec fn opt_view(o: Option<String>) -> Option<Seq<char>> {
    match o {
        Some(s) => Some(s@),
        None => None,
    }
}

/// An optional character vector as an optional sequence.
pub open spec fn opt_vec_view(o: Option<Vec<char>>) -> Option<Seq<char>> {
    match o {
        Some(s) => Some(s@),
        None => None,
    }
}

/// The canonical forms of those candidates that have one, in order.
pub open spec fn normalize_all(cands: Seq<Seq<char>>) -> Seq<Seq<char>>
    decreases cands.len(),
{
    if cands.len() == 0 {
        Seq::empty()
    } else {
        let r = normalize_all(cands.drop_last());
        match tag_of(cands.last()) {
            Some(t) => r.push(t),
            None => r,
        }
    }
}

/// `s` with every repeated entry dropped; first occurrences keep their order.
pub open spec fn dedup(s: Seq<Seq<char>>) -> Seq<Seq<char>>
    decreases s.len(),
{
    if s.len() == 0 {
        Seq::empty()
    } else {
        let d = dedup(s.drop_last());
        if d.contains(s.last()) {
            d
        } else {
            d.push(s.last())
        }
    }
}

/// Whether a tag may hold `ch`.
pub fn is_allowed_tag_char(ch: char) -> (r: bool)
    ensures
        r == allowed_tag_char(ch),
{
    is_ascii_alphanumeric(ch) || ('\u{4E00}' <= ch && ch <= '\u{9FFF}')
}

/// The canonical form of a raw tag given as characters, if it has one.
pub fn normalize_tag_chars(raw: &Vec<char>) -> (r: Option<Vec<char>>)
    ensures
        opt_vec_view(r) == tag_of(raw@),
{
    let t = trim_chars(raw);
    if t.len() == 0 || t.len() > MAX_TAG_CHARS {
        return None;
    }
    let mut i: usize = 0;
    while i < t.len()
        invariant
            i <= t.len(),
            t@ == trim(raw@),
            forall|j: int| 0 <= j < i ==> allowed_tag_char(#[trigger] t@[j]),
        decreases t.len() - i,
    {
        if !is_allowed_tag_char(t[i]) {
            assert(!allowed_tag_char(t@[i as int]));
            return None;
        }
        i += 1;
    }
    Some(to_ascii_lower(&t))
}

/// Checks and canonicalises one raw tag.
pub fn normalize_tag(raw: &str) -> (r: Option<String>)
    ensures
        opt_view(r) == tag_of(raw@),
{
    let v = chars_of(raw);
    match normalize_tag_chars(&v) {
        Some(t) => Some(string_of(&t)),
        None => None,
    }
}

/// Whether two character vectors are equal.
pub fn chars_eq(a: &Vec<char>, b: &Vec<char>) -> (r: bool)
    ensures
        r == (a@ == b@),
{
    if a.len() != b.len() {
        return false;
    }
    let mut i: usize = 0;
    while i < a.len()
        invariant
            i <= a.len() == b.len(),
            forall|j: int| 0 <= j < i ==> a@[j] == b@[j],
        decreases a.len() - i,
    {
        if a[i] != b[i] {
            return false;
        }
        i += 1;
    }
    assert(a@ =~= b@);
    true
}

/// Whether `v` holds an entry equal to `x`.
pub fn contains_chars(v: &Vec<Vec<char>>, x: &Vec<char>) -> (r: bool)
    ensures
        r == views(v@).contains(x@),
{
    let mut i: usize = 0;
    while i < v.len()
        invariant
            i <= v.len(),
            forall|j: int| 0 <= j < i ==> v@[j]@ != x@,
        decreases v.len() - i,
    {
        if chars_eq(&v[i], x) {
            assert(views(v@)[i as int] == x@);
            return true;
        }
        i += 1;
    }
    assert forall|j: int| 0 <= j < views(v@).len() implies views(v@)[j] != x@ by {
        assert(views(v@)[j] == v@[j]@);
    }
    false
}

/// Appends `x` unless an equal entry is already there.
pub fn push_unique(v: &mut Vec<Vec<char>>, x: Vec<char>)
    ensures
        views(final(v)@) == if views(old(v)@).contains(x@) {
            views(old(v)@)
        } else {
            views(old(v)@).push(x@)
        },
{
    if !contains_chars(v, &x) {
        let ghost d = v@;
        let ghost w = x@;
        v.push(x);
        assert(views(v@) =~= views(d).push(w));
    }
}

/// The canonical forms of the candidates, without repeats, in order of first appearance.
pub fn normalize_unique(cands: &Vec<Vec<char>>) -> (r: Vec<Vec<char>>)
    ensures
        views(r@) == dedup(normalize_all(views(cands@))),
{
    let mut r: Vec<Vec<char>> = Vec::new();
    let mut i: usize = 0;
    while i < cands.len()
        invariant
            i <= cands.len(),
            views(r@) == dedup(normalize_all(views(cands@).take(i as int))),
        decreases cands.len() - i,
    {
        let ghost pre = views(cands@).take(i as int);
        let ghost next = views(cands@).take(i + 1);
        assert(next.drop_last() == pre);
        assert(next.last() == cands@[i as int]@);
        match normalize_tag_chars(&cands[i]) {
            Some(t) => {
                assert(normalize_all(next) == normalize_all(pre).push(t@));
                assert(normalize_all(next).drop_last() == normalize_all(pre));
                push_unique(&mut r, t);
            },
            None => {},
        }
        i += 1;
    }
    assert(views(cands@).take(i as int) == views(cands@));
    r
}

/// The canonical forms of the candidates, in order, repeats kept.
pub fn normalize_each(cands: &Vec<Vec<char>>) -> (r: Vec<Vec<char>>)
    ensures
        views(r@) == normalize_all(views(cands@)),
{
    let mut r: Vec<Vec<char>> = Vec::new();
    let mut i: usize = 0;
    while i < cands.len()
        invariant
            i <= cands.len(),
            views(r@) == normalize_all(views(cands@).take(i as int)),
        decreases cands.len() - i,
    {
        let ghost pre = views(cands@).take(i as int);
        let ghost next = views(cands@).take(i + 1);
        assert(next.drop_last() == pre);
        assert(next.last() == cands@[i as int]@);
        match normalize_tag_chars(&cands[i]) {
            Some(t) => {
                let ghost d = r@;
                let ghost w = t@;
                r.push(t);
                assert(views(r@) =~= views(d).push(w));
            },
            None => {},
        }
        i += 1;
    }
    assert(views(cands@).take(i as int) == views(cands@));
    r
}

/// Each character vector as a string.
pub fn strings_of(v: &Vec<Vec<char>>) -> (r: Vec<String>)
    ensures
        str_views(r@) == views(v@),
{
    let mut r: Vec<String> = Vec::new();
    let mut i: usize = 0;
    while i < v.len()
        invariant
            i <= v.len(),
            str_views(r@) == views(v@).take(i as int),
        decreases v.len() - i,
    {
        let s = string_of(&v[i]);
        let ghost d = r@;
        r.push(s);
        assert(str_views(r@) =~= str_views(d).push(v@[i as int]@));
        assert(views(v@).take(i + 1) =~= views(v@).take(i as int).push(v@[i as int]@));
        i += 1;
    }
    assert(views(v@).take(i as int) =~= views(v@));
    r
}

/// Each string as a character vector.
pub fn chars_of_all(v: &Vec<String>) -> (r: Vec<Vec<char>>)
    ensures
        views(r@) == str_views(v@),
{
    let mut r: Vec<Vec<char>> = Vec::new();
    let mut i: usize = 0;
    while i < v.len()
        invariant
            i <= v.len(),
            views(r@) == str_views(v@).take(i as int),
        decreases v.len() - i,
    {
        let s = chars_of(v[i].as_str());
        let ghost d = r@;
        r.push(s);
        assert(views(r@) =~= views(d).push(v@[i as int]@));
        assert(str_views(v@).take(i + 1) =~= str_views(v@).take(i as int).push(v@[i as int]@));
        i += 1;
    }
    assert(str_views(v@).take(i as int) =~= str_views(v@));
    r
}

/// Canonical forms of the given tags, without repeats; tags that have none are dropped.
pub fn normalize_tags(raw: Vec<String>) -> (r: Vec<String>)
    ensures
        str_views(r@) == dedup(normalize_all(str_views(raw@))),
{
    let cands = chars_of_all(&raw);
    let n = normalize_unique(&cands);
    strings_of(&n)
}


/// Contents of the well-formed `[...]` pairs of `s[i..]`, left to right; `open` is the
/// start of the pair being read, if any. Each `]` closes the nearest open `[`; an
/// unterminated `[` ends the scan.
pub open spec fn bracket_scan(s: Seq<char>, i: int, open: Option<int>) -> Seq<Seq<char>>
    decreases s.len() - i,
{
    if i >= s.len() || i < 0 {
        Seq::empty()
    } else {
        match open {
            None => if s[i] == '[' {
                bracket_scan(s, i + 1, Some(i + 1))
            } else {
                bracket_scan(s, i + 1, None)
            },
            Some(a) => if s[i] == ']' {
                seq![s.subrange(a, i)] + bracket_scan(s, i + 1, None)
            } else {
                bracket_scan(s, i + 1, Some(a))
            },
        }
    }
}

/// The tokens that start with `#`, with that `#` removed.
pub open spec fn hash_cands(ws: Seq<Seq<char>>) -> Seq<Seq<char>>
    decreases ws.len(),
{
    if ws.len() == 0 {
        Seq::empty()
    } else {
        let r = hash_cands(ws.drop_last());
        let w = ws.last();
        if w.len() > 0 && w[0] == '#' {
            r.push(w.drop_first())
        } else {
            r
        }
    }
}

/// The tags a title carries: bracketed contents and `#`-prefixed tokens, canonicalised,
/// each once.
pub open spec fn title_tags(title: Seq<char>) -> Seq<Seq<char>> {
    dedup(normalize_all(bracket_scan(title, 0, None) + hash_cands(words(title))))
}

/// Contents of the well-formed `[...]` pairs, left to right.
pub fn bracket_contents(s: &Vec<char>) -> (r: Vec<Vec<char>>)
    ensures
        views(r@) == bracket_scan(s@, 0, None),
{
    let mut r: Vec<Vec<char>> = Vec::new();
    let mut open: Option<usize> = None;
    let mut i: usize = 0;
    while i < s.len()
        invariant
            i <= s.len(),
            match open {
                Some(a) => a <= i,
                None => true,
            },
            views(r@) + bracket_scan(
                s@,
                i as int,
                match open {
                    Some(a) => Some(a as int),
                    None => None,
                },
            ) == bracket_scan(s@, 0, None),
        decreases s.len() - i,
    {
        let c = s[i];
        match open {
            None => {
                if c == '[' {
                    open = Some(i + 1);
                }
            },
            Some(a) => {
                if c == ']' {
                    let w = sub_vec(s, a, i);
                    let ghost d = r@;
                    let ghost rest = bracket_scan(s@, i + 1, None);
                    r.push(w);
                    assert(views(r@) =~= views(d).push(s@.subrange(a as int, i as int)));
                    assert(views(r@) + rest =~= views(d) + (seq![s@.subrange(a as int, i as int)]
                        + rest));
                    open = None;
                }
            },
        }
        i += 1;
    }
    assert(views(r@) + Seq::<Seq<char>>::empty() == views(r@));
    r
}

/// The tokens that start with `#`, without it.
pub fn hash_tokens(ws: &Vec<Vec<char>>) -> (r: Vec<Vec<char>>)
    ensures
        views(r@) == hash_cands(views(ws@)),
{
    let mut r: Vec<Vec<char>> = Vec::new();
    let mut i: usize = 0;
    while i < ws.len()
        invariant
            i <= ws.len(),
            views(r@) == hash_cands(views(ws@).take(i as int)),
        decreases ws.len() - i,
    {
        let ghost pre = views(ws@).take(i as int);
        let ghost next = views(ws@).take(i + 1);
        assert(next.drop_last() == pre);
        assert(next.last() == ws@[i as int]@);
        let w = &ws[i];
        if w.len() > 0 && w[0] == '#' {
            let t = sub_vec(w, 1, w.len());
            let ghost d = r@;
            assert(t@ == w@.drop_first());
            r.push(t);
            assert(views(r@) =~= views(d).push(w@.drop_first()));
        }
        i += 1;
    }
    assert(views(ws@).take(i as int) == views(ws@));
    r
}

/// Appends the entries of `b` to `a`.
pub fn append_all(a: &mut Vec<Vec<char>>, b: Vec<Vec<char>>)
    ensures
        views(final(a)@) == views(old(a)@) + views(b@),
{
    let mut b = b;
    let ghost a0 = views(a@);
    let ghost b0 = views(b@);
    a.append(&mut b);
    assert(views(a@) =~= a0 + b0);
}

/// Tags carried by a title: contents of `[...]` pairs and tokens that start with `#`,
/// canonicalised, each once; candidates without a canonical form are dropped.
pub fn extract_tags(title: &str) -> (r: Vec<String>)
    ensures
        str_views(r@) == title_tags(title@),
{
    let t = chars_of(title);
    let mut cands = bracket_contents(&t);
    let ws = split_words(&t);
    let hs = hash_tokens(&ws);
    append_all(&mut cands, hs);
    let n = normalize_unique(&cands);
    strings_of(&n)
}


/// A string of 1 to 10 allowed characters canonicalises to its ASCII lower-case form.
pub proof fn lemma_valid_tag_normalizes(t: Seq<char>)
    requires
        1 <= t.len() <= MAX_TAG_CHARS,
        forall|i: int| 0 <= i < t.len() ==> allowed_tag_char(#[trigger] t[i]),
    ensures
        tag_of(t) == Some(ascii_lower(t)),
{
    assert(allowed_tag_char(t[0]));
    assert(allowed_tag_char(t[t.len() - 1]));
    lemma_trim_noop(t);
}

/// A canonical tag is its own canonical form.
pub proof fn lemma_canonical_fixed(raw: Seq<char>)
    requires
        tag_of(raw) is Some,
    ensures
        tag_of(tag_of(raw)->0) == tag_of(raw),
{
    let t = trim(raw);
    let c = ascii_lower(t);
    assert forall|i: int| 0 <= i < c.len() implies allowed_tag_char(#[trigger] c[i]) by {
        assert(allowed_tag_char(t[i]));
        assert(c[i] == crate::text::ascii_lower_char(t[i]));
    }
    lemma_valid_tag_normalizes(c);
    assert(ascii_lower(c) =~= c) by {
        assert forall|i: int| 0 <= i < c.len() implies #[trigger] ascii_lower(c)[i] == c[i] by {
            assert(allowed_tag_char(t[i]));
        }
    }
}

/// Every entry of `normalize_all(cands)` is a canonical tag.
pub proof fn lemma_normalize_all_canonical(cands: Seq<Seq<char>>)
    ensures
        forall|i: int|
            0 <= i < normalize_all(cands).len() ==> tag_of(#[trigger] normalize_all(cands)[i])
                == Some(normalize_all(cands)[i]),
    decreases cands.len(),
{
    if cands.len() > 0 {
        lemma_normalize_all_canonical(cands.drop_last());
        let r = normalize_all(cands.drop_last());
        match tag_of(cands.last()) {
            Some(t) => {
                lemma_canonical_fixed(cands.last());
                assert forall|i: int| 0 <= i < r.push(t).len() implies tag_of(
                    #[trigger] r.push(t)[i],
                ) == Some(r.push(t)[i]) by {
                    if i < r.len() {
                        assert(r.push(t)[i] == r[i]);
                    }
                }
            },
            None => {},
        }
    }
}

/// A string has no canonical form when, trimmed, it is empty or longer than 10
/// characters, or when it holds a character that is neither allowed nor whitespace, or a
/// whitespace character between two characters that are not.
pub proof fn lemma_invalid_tag_rejected(s: Seq<char>)
    requires
        trim(s).len() == 0 || trim(s).len() > MAX_TAG_CHARS || (exists|i: int|
            0 <= i < s.len() && !allowed_tag_char(#[trigger] s[i]) && !is_ws(s[i])) || (exists|
            i: int,
            j: int,
            k: int,
        |
            0 <= i < j < k < s.len() && !is_ws(#[trigger] s[i]) && is_ws(#[trigger] s[j]) && !is_ws(#[trigger] s[k])),
    ensures
        tag_of(s) is None,
{
    lemma_trim_range(s);
    let t = trim(s);
    let a = s.len() - crate::text::trim_start(s).len();
    if exists|i: int| 0 <= i < s.len() && !allowed_tag_char(#[trigger] s[i]) && !is_ws(s[i]) {
        let i = choose|i: int| 0 <= i < s.len() && !allowed_tag_char(#[trigger] s[i]) && !is_ws(
            s[i],
        );
        assert(t[i - a] == s[i]);
    } else if exists|i: int, j: int, k: int|
        0 <= i < j < k < s.len() && !is_ws(#[trigger] s[i]) && is_ws(#[trigger] s[j]) && !is_ws(#[trigger] s[k]) {
        let (i, j, k) = choose|i: int, j: int, k: int|
            0 <= i < j < k < s.len() && !is_ws(#[trigger] s[i]) && is_ws(#[trigger] s[j]) && !is_ws(#[trigger] s[k]);
        assert(t[j - a] == s[j]);
        assert(!allowed_tag_char(s[j]));
    }
}

} // verus!
