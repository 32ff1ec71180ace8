use vstd::prelude::*;

use crate::text::{chars_of, lemma_words_from_text, split_words, string_of, views, words};

verus! {

/// Greedy preview of `tokens[k..]` after `acc` has been written: whole tokens, space
/// separated, while they fit in `max` characters; the first token that does not fit is cut
/// at the budget. The flag tells whether anything was cut off.
pub open spec fn preview_scan(tokens: Seq<Seq<char>>, max: int, k: int, acc: Seq<char>) -> (
    Seq<char>,
    bool,
)
    decreases tokens.len() - k,
{
    if k < 0 || k >= tokens.len() {
        (acc, false)
    } else if acc.len() >= max {
        (acc, true)
    } else {
        let acc2 = if acc.len() > 0 {
            acc.push(' ')
        } else {
            acc
        };
        let tok = tokens[k];
        if acc2.len() + tok.len() <= max {
            preview_scan(tokens, max, k + 1, acc2 + tok)
        } else {
            (acc2 + tok.take(max - acc2.len()), true)
        }
    }
}

/// The mark appended to a preview that was cut.
pub open spec fn ellipsis() -> Seq<char> {
    seq!['.', '.', '.']
}

/// The preview of `body` within `max` characters, with `...` appended when it was cut.
pub open spec fn preview_of(body: Seq<char>, max: int) -> Seq<char> {
    if max <= 0 {
        Seq::empty()
    } else {
        let (p, cut) = preview_scan(words(body), max, 0, Seq::empty());
        if cut {
            p + ellipsis()
        } else {
            p
        }
    }
}

/// A word-bounded preview of `body` of at most `max_chars` characters, plus `...` when
/// the body did not fit.
pub fn make_preview(body: &str, max_chars: usize) -> (r: String)
    ensures
        r@ == preview_of(body@, max_chars as int),
        r@.len() <= max_chars + 3,
        max_chars == 0 ==> r@.len() == 0,
{
    if max_chars == 0 {
        return String::new();
    }
    let b = chars_of(body);
    let tokens = split_words(&b);
    let ghost toks = views(tokens@);
    let ghost m = max_chars as int;
    let mut acc: Vec<char> = Vec::new();
    let mut truncated = false;
    let mut k: usize = 0;
    while k < tokens.len() && !truncated
        invariant
            k <= tokens.len(),
            toks == views(tokens@),
            m == max_chars,
            acc.len() <= max_chars,
            truncated ==> preview_scan(toks, m, 0, Seq::empty()) == (acc@, true),
            !truncated ==> preview_scan(toks, m, 0, Seq::empty()) == preview_scan(
                toks,
                m,
                k as int,
                acc@,
            ),
        decreases tokens.len() - k + (if truncated {
            0int
        } else {
            1int
        }),
    {
        if acc.len() >= max_chars {
            truncated = true;
        } else {
            if acc.len() > 0 {
                acc.push(' ');
            }
            let tok = &tokens[k];
            assert(toks[k as int] == tok@);
            let ghost acc2 = acc@;
            let fits = tok.len() <= max_chars - acc.len();
            let n = if fits {
                tok.len()
            } else {
                max_chars - acc.len()
            };
            let mut j: usize = 0;
            while j < n
                invariant
                    j <= n <= tok.len(),
                    acc2.len() + n <= max_chars,
                    acc@ == acc2 + tok@.take(j as int),
                decreases n - j,
            {
                acc.push(tok[j]);
                j += 1;
                assert(acc@ =~= acc2 + tok@.take(j as int));
            }
            if fits {
                assert(tok@.take(j as int) == tok@);
            } else {
                truncated = true;
            }
            k += 1;
        }
    }
    assert(preview_scan(toks, m, 0, Seq::empty()) == (acc@, truncated));
    if truncated {
        acc.push('.');
        acc.push('.');
        acc.push('.');
        assert(acc@ =~= preview_scan(toks, m, 0, Seq::empty()).0 + ellipsis());
    }
    string_of(&acc)
}


proof fn lemma_scan_chars(
    body: Seq<char>,
    tokens: Seq<Seq<char>>,
    max: int,
    k: int,
    acc: Seq<char>,
)
    requires
        0 <= k,
        acc.len() <= max,
        forall|i: int, j: int|
            0 <= i < tokens.len() && 0 <= j < tokens[i].len() ==> body.contains(
                #[trigger] tokens[i][j],
            ),
        forall|j: int| 0 <= j < acc.len() ==> #[trigger] acc[j] == ' ' || body.contains(acc[j]),
    ensures
        preview_scan(tokens, max, k, acc).0.len() <= max,
        forall|j: int|
            0 <= j < preview_scan(tokens, max, k, acc).0.len() ==> #[trigger] preview_scan(
                tokens,
                max,
                k,
                acc,
            ).0[j] == ' ' || body.contains(preview_scan(tokens, max, k, acc).0[j]),
    decreases tokens.len() - k,
{
    if k < tokens.len() && acc.len() < max {
        let acc2 = if acc.len() > 0 {
            acc.push(' ')
        } else {
            acc
        };
        let tok = tokens[k];
        assert forall|j: int| 0 <= j < acc2.len() implies #[trigger] acc2[j] == ' ' || body.contains(
            acc2[j],
        ) by {
            if j < acc.len() {
                assert(acc2[j] == acc[j]);
            }
        }
        if acc2.len() + tok.len() <= max {
            let next = acc2 + tok;
            assert forall|j: int| 0 <= j < next.len() implies #[trigger] next[j] == ' '
                || body.contains(next[j]) by {
                if j >= acc2.len() {
                    assert(next[j] == tokens[k][j - acc2.len()]);
                }
            }
            lemma_scan_chars(body, tokens, max, k + 1, next);
        } else {
            let next = acc2 + tok.take(max - acc2.len());
            assert forall|j: int| 0 <= j < next.len() implies #[trigger] next[j] == ' '
                || body.contains(next[j]) by {
                if j >= acc2.len() {
                    assert(next[j] == tokens[k][j - acc2.len()]);
                }
            }
        }
    }
}

/// The text before the `...` mark stays within the budget and is made of whole characters
/// of the body and the spaces put between words; the mark is added exactly when the body
/// did not fit.
pub proof fn lemma_preview_from_body(body: Seq<char>, max: int)
    requires
        max > 0,
    ensures
        ({
            let (p, cut) = preview_scan(words(body), max, 0, Seq::empty());
            &&& p.len() <= max
            &&& forall|j: int| 0 <= j < p.len() ==> #[trigger] p[j] == ' ' || body.contains(p[j])
            &&& preview_of(body, max) == if cut {
                p + ellipsis()
            } else {
                p
            }
        }),
{
    lemma_words_from_text(body);
    lemma_scan_chars(body, words(body), max, 0, Seq::empty());
}

} // verus!
