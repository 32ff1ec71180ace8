use vstd::prelude::*;

use crate::tags::chars_eq;
use crate::text::views;

verus! {

/// Lexicographic order by code point, which is the byte order of `String`.
pub open spec fn lex_lt(a: Seq<char>, b: Seq<char>) -> bool
    decreases a.len(),
{
    if a.len() == 0 {
        b.len() > 0
    } else if b.len() == 0 {
        false
    } else if a[0] != b[0] {
        a[0] < b[0]
    } else {
        lex_lt(a.drop_first(), b.drop_first())
    }
}

/// No sequence comes before itself.
pub proof fn lemma_lex_irreflexive(a: Seq<char>)
    ensures
        !lex_lt(a, a),
    decreases a.len(),
{
    if a.len() > 0 {
        lemma_lex_irreflexive(a.drop_first());
    }
}

/// The order is transitive.
pub proof fn lemma_lex_transitive(a: Seq<char>, b: Seq<char>, c: Seq<char>)
    requires
        lex_lt(a, b),
        lex_lt(b, c),
    ensures
        lex_lt(a, c),
    decreases a.len(),
{
    if a.len() > 0 && b.len() > 0 && c.len() > 0 && a[0] == b[0] && b[0] == c[0] {
        lemma_lex_transitive(a.drop_first(), b.drop_first(), c.drop_first());
    }
}

/// Of two different sequences, one comes first.
pub proof fn lemma_lex_total(a: Seq<char>, b: Seq<char>)
    requires
        a != b,
    ensures
        lex_lt(a, b) || lex_lt(b, a),
    decreases a.len(),
{
    if a.len() > 0 && b.len() > 0 && a[0] == b[0] {
        if a.drop_first() == b.drop_first() {
            assert(a =~= seq![a[0]] + a.drop_first());
            assert(b =~= seq![b[0]] + b.drop_first());
        }
        lemma_lex_total(a.drop_first(), b.drop_first());
    } else if a.len() == 0 && b.len() == 0 {
        assert(a =~= b);
    }
}

/// Each entry comes strictly before the next; so there are no repeats.
pub open spec fn strictly_sorted(s: Seq<Seq<char>>) -> bool {
    forall|i: int, j: int| 0 <= i < j < s.len() ==> lex_lt(#[trigger] s[i], #[trigger] s[j])
}

/// Whether `a` comes strictly before `b`.
pub fn lex_less(a: &Vec<char>, b: &Vec<char>) -> (r: bool)
    ensures
        r == lex_lt(a@, b@),
{
    let mut i: usize = 0;
    assert(a@.skip(0) == a@ && b@.skip(0) == b@);
    while i < a.len() && i < b.len() && a[i] == b[i]
        invariant
            i <= a.len(),
            i <= b.len(),
            lex_lt(a@, b@) == lex_lt(a@.skip(i as int), b@.skip(i as int)),
        decreases a.len() - i,
    {
        assert(a@.skip(i as int).drop_first() == a@.skip(i + 1));
        assert(b@.skip(i as int).drop_first() == b@.skip(i + 1));
        i += 1;
    }
    if i == a.len() {
        i < b.len()
    } else if i == b.len() {
        false
    } else {
        a[i] < b[i]
    }
}

/// Adds `x` to a strictly sorted list, keeping it strictly sorted.
pub fn insert_sorted(v: &mut Vec<Vec<char>>, x: Vec<char>)
    requires
        strictly_sorted(views(old(v)@)),
    ensures
        strictly_sorted(views(final(v)@)),
        forall|y: Seq<char>| #[trigger]
            views(final(v)@).contains(y) <==> (views(old(v)@).contains(y) || y == x@),
{
    let ghost s = views(v@);
    let mut j: usize = 0;
    while j < v.len() && lex_less(&v[j], &x)
        invariant
            j <= v.len(),
            s == views(v@),
            forall|i: int| 0 <= i < j ==> lex_lt(#[trigger] s[i], x@),
        decreases v.len() - j,
    {
        j += 1;
    }
    if j < v.len() && chars_eq(&v[j], &x) {
        assert(forall|y: Seq<char>| #[trigger] s.contains(y) <==> (s.contains(y) || y == x@)) by {
            assert(s[j as int] == x@);
        }
        return;
    }
    let ghost xv = x@;
    proof {
        if j < s.len() {
            assert(s[j as int] != xv);
            lemma_lex_total(s[j as int], xv);
        }
    }
    v.insert(j, x);
    let ghost t = views(v@);
    assert(t =~= s.insert(j as int, xv));
    assert forall|a: int, b: int| 0 <= a < b < t.len() implies lex_lt(
        #[trigger] t[a],
        #[trigger] t[b],
    ) by {
        if b < j {
        } else if b == j {
        } else if a < j {
            assert(t[b] == s[b - 1]);
            if j < s.len() {
                if b - 1 > j {
                    lemma_lex_transitive(s[a], xv, s[j as int]);
                    lemma_lex_transitive(s[a], s[j as int], s[b - 1]);
                } else {
                    lemma_lex_transitive(s[a], xv, s[j as int]);
                }
            }
        } else if a == j {
            assert(t[b] == s[b - 1]);
            if b - 1 > j {
                lemma_lex_transitive(xv, s[j as int], s[b - 1]);
            }
        } else {
            assert(t[a] == s[a - 1]);
            assert(t[b] == s[b - 1]);
        }
    }
    assert forall|y: Seq<char>| #[trigger] t.contains(y) <==> (s.contains(y) || y == xv) by {
        if t.contains(y) {
            let k = choose|k: int| 0 <= k < t.len() && t[k] == y;
            if k < j {
                assert(s[k] == y);
            } else if k > j {
                assert(s[k - 1] == y);
            }
        }
        if s.contains(y) {
            let k = choose|k: int| 0 <= k < s.len() && s[k] == y;
            if k < j {
                assert(t[k] == y);
            } else {
                assert(t[k + 1] == y);
            }
        }
        if y == xv {
            assert(t[j as int] == y);
        }
    }
}

/// The distinct entries of `v`, in strictly increasing order.
pub fn sort_unique(v: &Vec<Vec<char>>) -> (r: Vec<Vec<char>>)
    ensures
        strictly_sorted(views(r@)),
        forall|y: Seq<char>| #[trigger] views(r@).contains(y) <==> views(v@).contains(y),
{
    let mut r: Vec<Vec<char>> = Vec::new();
    let mut i: usize = 0;
    while i < v.len()
        invariant
            i <= v.len(),
            strictly_sorted(views(r@)),
            forall|y: Seq<char>| #[trigger]
                views(r@).contains(y) <==> views(v@).take(i as int).contains(y),
        decreases v.len() - i,
    {
        let ghost pre = views(v@).take(i as int);
        let ghost next = views(v@).take(i + 1);
        assert(next =~= pre.push(v@[i as int]@));
        insert_sorted(&mut r, v[i].clone());
        assert forall|y: Seq<char>| #[trigger] next.contains(y) <==> (pre.contains(y) || y
            == v@[i as int]@) by {
            if next.contains(y) {
                let k = choose|k: int| 0 <= k < next.len() && next[k] == y;
                if k < i {
                    assert(pre[k] == y);
                }
            }
            if pre.contains(y) {
                let k = choose|k: int| 0 <= k < pre.len() && pre[k] == y;
                assert(next[k] == y);
            }
            if y == v@[i as int]@ {
                assert(next[i as int] == y);
            }
        }
        i += 1;
    }
    assert(views(v@).take(i as int) == views(v@));
    r
}

} // verus!
