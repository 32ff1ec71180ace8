use vstd::prelude::*;

use crate::text::{
    alnum, byte_len, chars_of, is_alphanumeric, lemma_byte_len_prefix, lemma_byte_len_push,
    utf8_width, views,
};

verus! {

/// Haystacks longer than this many bytes are never scored.
pub const MAX_TEXT_BYTES: usize = 1073741823;

/// Queries with more free-text terms than this match nothing.
pub const MAX_TERMS: usize = 1048576;
/// The words joined by single spaces (`[String]::join(" ")`).
pub open spec fn join_words(ws: Seq<Seq<char>>) -> Seq<char>
    decreases ws.len(),
{
    if ws.len() == 0 {
        Seq::empty()
    } else if ws.len() == 1 {
        ws[0]
    } else {
        join_words(ws.drop_last()) + seq![' '] + ws.last()
    }
}

/// First position at or after `start` where `t` holds `c`; `t.len()` if there is none.
pub open spec fn find_from(t: Seq<char>, c: char, start: int) -> int
    decreases t.len() - start,
{
    if start < 0 || start >= t.len() {
        t.len() as int
    } else if t[start] == c {
        start
    } else {
        find_from(t, c, start + 1)
    }
}

/// First position at or after `p` where `m` occurs in `t` as a contiguous run.
pub open spec fn first_occurrence(t: Seq<char>, m: Seq<char>, p: int) -> Option<int>
    decreases t.len() - p,
{
    if p < 0 || p + m.len() > t.len() {
        None
    } else if m.len() == 0 {
        Some(p)
    } else if t.subrange(p, p + m.len()) == m {
        Some(p)
    } else {
        first_occurrence(t, m, p + 1)
    }
}

/// Whether character position `p` of `t` lies between a word character and a non-word one,
/// or at either end.
pub open spec fn boundary(t: Seq<char>, p: int) -> bool {
    p <= 0 || p >= t.len() || !alnum(t[p - 1]) || !alnum(t[p])
}

/// The discount for a contiguous occurrence of `m` in `t`, 0 if there is none.
pub open spec fn substring_bonus(t: Seq<char>, m: Seq<char>) -> int {
    match first_occurrence(t, m, 0) {
        None => 0,
        Some(p) => -(200 + byte_len(t.take(p))) - (if boundary(t, p) {
            30int
        } else {
            0int
        }) - (if boundary(t, p + m.len()) {
            10int
        } else {
            0int
        }),
    }
}

/// Distance cost of matching `m[k..]` in order against `t[start..]`, the previous match
/// having been at byte `last`; `None` if some character cannot be found.
pub open spec fn subseq_cost(t: Seq<char>, m: Seq<char>, k: int, start: int, last: int) -> Option<
    int,
>
    decreases m.len() - k,
{
    if k < 0 || k >= m.len() {
        Some(0)
    } else {
        let q = find_from(t, m[k], start);
        if q >= t.len() {
            None
        } else {
            let bq = byte_len(t.take(q));
            match subseq_cost(t, m, k + 1, q + 1, bq) {
                Some(r) => Some(bq - last + r),
                None => None,
            }
        }
    }
}

/// Cost of one term against one haystack; lower is better.
pub open spec fn match_cost(t: Seq<char>, m: Seq<char>) -> Option<int> {
    if m.len() == 0 {
        Some(0)
    } else {
        match subseq_cost(t, m, 0, 0, -1) {
            Some(s) => Some(substring_bonus(t, m) + s),
            None => None,
        }
    }
}

/// Sum of the costs of `terms[k..]` against `t`; `None` if any term fails.
pub open spec fn terms_cost(t: Seq<char>, terms: Seq<Seq<char>>, k: int) -> Option<int>
    decreases terms.len() - k,
{
    if k < 0 || k >= terms.len() {
        Some(0)
    } else {
        match (match_cost(t, terms[k]), terms_cost(t, terms, k + 1)) {
            (Some(a), Some(b)) => Some(a + b),
            _ => None,
        }
    }
}

/// The score of a document from its three haystacks: the full haystack must match; a title
/// match and a tags match can only improve it.
pub open spec fn prompt_cost(
    full: Seq<char>,
    title: Seq<char>,
    tags: Seq<char>,
    terms: Seq<Seq<char>>,
) -> Option<int> {
    match terms_cost(full, terms, 0) {
        None => None,
        Some(base) => {
            let b1 = match terms_cost(title, terms, 0) {
                Some(s) => if s - 10000 < base {
                    s - 10000
                } else {
                    base
                },
                None => base,
            };
            let b2 = match terms_cost(tags, terms, 0) {
                Some(s) => if s - 80 < b1 {
                    s - 80
                } else {
                    b1
                },
                None => b1,
            };
            Some(b2)
        },
    }
}

/// A machine score as a mathematical one.
pub open spec fn opt_i64(o: Option<i64>) -> Option<int> {
    match o {
        Some(x) => Some(x as int),
        None => None,
    }
}

/// `o` shifted by `x`, if it is there.
pub open spec fn add_opt(o: Option<int>, x: int) -> Option<int> {
    match o {
        Some(r) => Some(r + x),
        None => None,
    }
}

/// Index of the first occurrence of `m` in `t`, in characters and in bytes.
fn find_substring(t: &Vec<char>, m: &Vec<char>) -> (r: Option<(usize, usize)>)
    requires
        byte_len(t@) <= MAX_TEXT_BYTES,
    ensures
        match r {
            None => first_occurrence(t@, m@, 0) is None,
            Some((p, b)) => first_occurrence(t@, m@, 0) == Some(p as int) && b as int == byte_len(
                t@.take(p as int),
            ) && p + m.len() <= t.len(),
        },
{
    proof {
        lemma_byte_len_prefix(t@, 0, t.len() as int);
        assert(t@.take(t.len() as int) == t@);
    }
    if m.len() > t.len() {
        return None;
    }
    let mut p: usize = 0;
    let mut b: usize = 0;
    while p + m.len() <= t.len()
        invariant
            m.len() <= t.len(),
            t.len() <= MAX_TEXT_BYTES,
            p + m.len() <= t.len() + 1,
            byte_len(t@) <= MAX_TEXT_BYTES,
            b as int == byte_len(t@.take(p as int)),
            first_occurrence(t@, m@, 0) == first_occurrence(t@, m@, p as int),
        decreases t.len() + 1 - p,
    {
        let mut j: usize = 0;
        let mut same = true;
        while j < m.len()
            invariant
                p + m.len() <= t.len(),
                j <= m.len(),
                same == forall|x: int| 0 <= x < j ==> t@[p + x] == m@[x],
            decreases m.len() - j,
        {
            if t[p + j] != m[j] {
                same = false;
            }
            j += 1;
        }
        if same {
            assert(t@.subrange(p as int, p + m.len()) =~= m@);
            return Some((p, b));
        }
        assert(t@.subrange(p as int, p + m.len()) != m@) by {
            let x = choose|x: int| 0 <= x < m.len() && t@[p + x] != m@[x];
            assert(t@.subrange(p as int, p + m.len())[x] != m@[x]);
        }
        proof {
            lemma_byte_len_prefix(t@, p as int, p + 1);
            assert(t@.take(p + 1) == t@.take(p as int).push(t@[p as int]));
            lemma_byte_len_push(t@.take(p as int), t@[p as int]);
        }
        b = b + utf8_width(t[p]);
        p += 1;
    }
    None
}

/// Byte index of the first occurrence of `term` in `text`.
pub fn best_substring_index(text: &str, term: &str) -> (r: Option<usize>)
    requires
        byte_len(text@) <= MAX_TEXT_BYTES,
    ensures
        match first_occurrence(text@, term@, 0) {
            None => r is None,
            Some(p) => r == Some(byte_len(text@.take(p)) as usize),
        },
{
    let t = chars_of(text);
    let m = chars_of(term);
    match find_substring(&t, &m) {
        Some((_p, b)) => Some(b),
        None => None,
    }
}

/// Cost of `term` against the haystack `text`; `None` when some character of the term
/// cannot be matched in order.
pub fn score_match(text: &str, term: &str) -> (r: Option<i64>)
    requires
        byte_len(text@) <= MAX_TEXT_BYTES,
    ensures
        opt_i64(r) == match_cost(text@, term@),
{
    let t = chars_of(text);
    let m = chars_of(term);
    score_match_chars(&t, &m)
}

/// Whether character position `p` of `t` is a word boundary.
pub fn is_word_boundary(t: &Vec<char>, p: usize) -> (r: bool)
    ensures
        r == boundary(t@, p as int),
{
    if p == 0 || p >= t.len() {
        return true;
    }
    !is_alphanumeric(t[p - 1]) || !is_alphanumeric(t[p])
}

/// First position at or after `start` that holds `c`, with its byte offset.
fn find_char(t: &Vec<char>, c: char, start: usize, start_b: usize) -> (r: (usize, usize))
    requires
        start <= t.len(),
        start_b as int == byte_len(t@.take(start as int)),
        byte_len(t@) <= MAX_TEXT_BYTES,
    ensures
        r.0 as int == find_from(t@, c, start as int),
        r.0 < t.len() ==> r.1 as int == byte_len(t@.take(r.0 as int)),
{
    let mut q = start;
    let mut qb = start_b;
    while q < t.len() && t[q] != c
        invariant
            start <= q <= t.len(),
            qb as int == byte_len(t@.take(q as int)),
            byte_len(t@) <= MAX_TEXT_BYTES,
            find_from(t@, c, start as int) == find_from(t@, c, q as int),
        decreases t.len() - q,
    {
        proof {
            lemma_byte_len_prefix(t@, q as int, q + 1);
            assert(t@.take(q + 1) == t@.take(q as int).push(t@[q as int]));
            lemma_byte_len_push(t@.take(q as int), t@[q as int]);
        }
        qb = qb + utf8_width(t[q]);
        q += 1;
    }
    (q, qb)
}

/// Cost of one term against one haystack.
pub fn score_match_chars(t: &Vec<char>, m: &Vec<char>) -> (r: Option<i64>)
    requires
        byte_len(t@) <= MAX_TEXT_BYTES,
    ensures
        opt_i64(r) == match_cost(t@, m@),
        r matches Some(x) ==> -(byte_len(t@) + 240) <= x <= byte_len(t@),
{
    if m.len() == 0 {
        return Some(0);
    }
    let ghost len = byte_len(t@);
    let mut bonus: i64 = 0;
    match find_substring(t, m) {
        Some((p, b)) => {
            proof {
                lemma_byte_len_prefix(t@, p as int, p as int);
            }
            bonus = -(200 + b as i64);
            if is_word_boundary(t, p) {
                bonus = bonus - 30;
            }
            if is_word_boundary(t, p + m.len()) {
                bonus = bonus - 10;
            }
        },
        None => {},
    }
    assert(bonus == substring_bonus(t@, m@));
    let mut last: i64 = -1;
    let mut start: usize = 0;
    let mut start_b: usize = 0;
    let mut k: usize = 0;
    assert(t@.take(0) =~= Seq::<char>::empty());
    while k < m.len()
        invariant
            k <= m.len(),
            start <= t.len(),
            start_b as int == byte_len(t@.take(start as int)),
            byte_len(t@) == len,
            len <= MAX_TEXT_BYTES,
            -1 <= last < start_b || (last == -1 && start_b == 0),
            last < len || (last == -1),
            start_b <= len,
            subseq_cost(t@, m@, 0, 0, -1) == add_opt(
                subseq_cost(t@, m@, k as int, start as int, last as int),
                last + 1,
            ),
        decreases m.len() - k,
    {
        let (q, qb) = find_char(t, m[k], start, start_b);
        if q >= t.len() {
            return None;
        }
        proof {
            lemma_byte_len_prefix(t@, q as int, q + 1);
            assert(t@.take(q + 1) == t@.take(q as int).push(t@[q as int]));
            lemma_byte_len_push(t@.take(q as int), t@[q as int]);
        }
        last = qb as i64;
        start = q + 1;
        start_b = qb + utf8_width(t[q]);
        k += 1;
    }
    assert(subseq_cost(t@, m@, k as int, start as int, last as int) == Some(0int));
    Some(bonus + last + 1)
}

/// Sum of the term costs against one haystack.
pub fn score_terms(t: &Vec<char>, terms: &Vec<Vec<char>>) -> (r: Option<i64>)
    requires
        byte_len(t@) <= MAX_TEXT_BYTES,
        terms.len() <= MAX_TERMS,
    ensures
        opt_i64(r) == terms_cost(t@, views(terms@), 0),
        r matches Some(x) ==> -(MAX_TERMS * (MAX_TEXT_BYTES + 240)) <= x <= MAX_TERMS * (
        MAX_TEXT_BYTES + 240),
{
    let ghost bound: int = MAX_TEXT_BYTES + 240;
    let mut total: i64 = 0;
    let mut k: usize = 0;
    while k < terms.len()
        invariant
            k <= terms.len() <= MAX_TERMS,
            byte_len(t@) <= MAX_TEXT_BYTES,
            bound == MAX_TEXT_BYTES + 240,
            -(k * bound) <= total <= k * bound,
            terms_cost(t@, views(terms@), 0) == add_opt(
                terms_cost(t@, views(terms@), k as int),
                total as int,
            ),
        decreases terms.len() - k,
    {
        assert(views(terms@)[k as int] == terms@[k as int]@);
        match score_match_chars(t, &terms[k]) {
            None => {
                return None;
            },
            Some(c) => {
                assert((k + 1) * bound == k * bound + bound) by (nonlinear_arith);
                assert(k * bound <= MAX_TERMS * bound) by (nonlinear_arith)
                    requires
                        k <= MAX_TERMS,
                        bound >= 0,
                ;
                total = total + c;
            },
        }
        k += 1;
    }
    assert(k * bound <= MAX_TERMS * bound) by (nonlinear_arith)
        requires
            k <= MAX_TERMS,
            bound >= 0,
    ;
    Some(total)
}

/// Score of a document from its three lower-cased haystacks; `None` when the full haystack
/// does not match.
pub fn score_prompt(
    full: &Vec<char>,
    title: &Vec<char>,
    tags: &Vec<char>,
    terms: &Vec<Vec<char>>,
) -> (r: Option<i64>)
    requires
        byte_len(full@) <= MAX_TEXT_BYTES,
        byte_len(title@) <= MAX_TEXT_BYTES,
        byte_len(tags@) <= MAX_TEXT_BYTES,
        terms.len() <= MAX_TERMS,
    ensures
        opt_i64(r) == prompt_cost(full@, title@, tags@, views(terms@)),
{
    let base = match score_terms(full, terms) {
        None => {
            return None;
        },
        Some(b) => b,
    };
    let mut best = base;
    match score_terms(title, terms) {
        Some(s) => {
            if s - 10000 < best {
                best = s - 10000;
            }
        },
        None => {},
    }
    match score_terms(tags, terms) {
        Some(s) => {
            if s - 80 < best {
                best = s - 80;
            }
        },
        None => {},
    }
    Some(best)
}


} // verus!
