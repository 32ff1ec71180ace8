use vstd::prelude::*;

use crate::preview::{make_preview, preview_of};
use crate::search::{entry_views, PromptEntry, PromptView};

verus! {

/// Smallest preview budget, in characters.
pub const PREVIEW_CHARS_MIN: u32 = 10;

/// Largest preview budget, in characters.
pub const PREVIEW_CHARS_MAX: u32 = 200;

/// How long a newly created, still empty prompt file stays hidden, in milliseconds.
pub const PENDING_PROMPT_TTL_MS: u128 = 5000;

/// Whether a file `size` bytes long, created at `created_at`, is still hidden at `now`.
pub open spec fn hidden_spec(size: u64, created_at: u128, now: u128) -> bool {
    size == 0 && (if now >= created_at {
        now - created_at
    } else {
        0
    }) < PENDING_PROMPT_TTL_MS
}

/// The creation time recorded for `id`, from its first pair.
pub open spec fn created_of(pend: Seq<(String, u128)>, id: Seq<char>) -> Option<u128>
    decreases pend.len(),
{
    if pend.len() == 0 {
        None
    } else if pend[0].0@ == id {
        Some(pend[0].1)
    } else {
        created_of(pend.drop_first(), id)
    }
}

/// The creation time of `p` if it is pending and still hidden.
pub open spec fn hidden_since(p: PromptView, size: u64, pend: Seq<(String, u128)>, now: u128) -> Option<
    u128,
> {
    match created_of(pend, p.id) {
        Some(c) => if hidden_spec(size, c, now) {
            Some(c)
        } else {
            None
        },
        None => None,
    }
}

/// The prompts that are shown, in order; `sizes[i]` is the size of `ps[i]`'s file.
pub open spec fn shown(ps: Seq<PromptView>, sizes: Seq<u64>, pend: Seq<(String, u128)>, now: u128) -> Seq<
    PromptView,
>
    decreases ps.len(),
{
    if ps.len() == 0 {
        Seq::empty()
    } else {
        let r = shown(ps.drop_last(), sizes, pend, now);
        if hidden_since(ps.last(), sizes[ps.len() - 1], pend, now) is Some {
            r
        } else {
            r.push(ps.last())
        }
    }
}

/// The prompts still hidden, with their creation times, in order.
pub open spec fn still_pending(
    ps: Seq<PromptView>,
    sizes: Seq<u64>,
    pend: Seq<(String, u128)>,
    now: u128,
) -> Seq<(Seq<char>, u128)>
    decreases ps.len(),
{
    if ps.len() == 0 {
        Seq::empty()
    } else {
        let r = still_pending(ps.drop_last(), sizes, pend, now);
        match hidden_since(ps.last(), sizes[ps.len() - 1], pend, now) {
            Some(c) => r.push((ps.last().id, c)),
            None => r,
        }
    }
}

/// Pending pairs as (id, time) sequences.
pub open spec fn pending_views(v: Seq<(String, u128)>) -> Seq<(Seq<char>, u128)> {
    v.map_values(|x: (String, u128)| (x.0@, x.1))
}

fn find_created(pend: &Vec<(String, u128)>, id: &String) -> (r: Option<u128>)
    ensures
        r == created_of(pend@, id@),
{
    let mut i: usize = 0;
    assert(pend@.skip(0) == pend@);
    while i < pend.len()
        invariant
            i <= pend.len(),
            created_of(pend@, id@) == created_of(pend@.skip(i as int), id@),
        decreases pend.len() - i,
    {
        assert(pend@.skip(i as int)[0] == pend@[i as int]);
        if pend[i].0 == *id {
            return Some(pend[i].1);
        }
        assert(pend@.skip(i as int).drop_first() == pend@.skip(i + 1));
        i += 1;
    }
    None
}

/// Rules of the prompt collection that sit around the search engine.
pub struct PromptsService;

/// A preview budget brought into its allowed range.
pub open spec fn clamp_spec(v: u32) -> u32 {
    if v < PREVIEW_CHARS_MIN {
        PREVIEW_CHARS_MIN
    } else if v > PREVIEW_CHARS_MAX {
        PREVIEW_CHARS_MAX
    } else {
        v
    }
}

impl PromptsService {
    /// The preview budget brought into its allowed range.
    pub fn clamp_preview_chars(value: u32) -> (r: u32)
        ensures
            r == clamp_spec(value),
            PREVIEW_CHARS_MIN <= r <= PREVIEW_CHARS_MAX,
    {
        if value < PREVIEW_CHARS_MIN {
            PREVIEW_CHARS_MIN
        } else if value > PREVIEW_CHARS_MAX {
            PREVIEW_CHARS_MAX
        } else {
            value
        }
    }

    /// Whether a file created at `created_at` and now `size` bytes long is still hidden
    /// at `now` (times in milliseconds): it is empty and its grace period has not run out.
    pub fn pending_hidden(size: u64, created_at: u128, now: u128) -> (r: bool)
        ensures
            r == hidden_spec(size, created_at, now),
    {
        let age = if now >= created_at {
            now - created_at
        } else {
            0
        };
        size == 0 && age < PENDING_PROMPT_TTL_MS
    }

    /// Splits freshly indexed prompts into those shown and those still hidden: a prompt is
    /// hidden while it has a creation time in `pending` and `pending_hidden` holds for its
    /// size `sizes[i]`; the hidden ones, with their times, are what stays pending.
    pub fn split_pending(
        prompts: &Vec<PromptEntry>,
        pending: &Vec<(String, u128)>,
        sizes: &Vec<u64>,
        now: u128,
    ) -> (r: (Vec<PromptEntry>, Vec<(String, u128)>))
        requires
            sizes.len() == prompts.len(),
        ensures
            entry_views(r.0@) == shown(entry_views(prompts@), sizes@, pending@, now),
            pending_views(r.1@) == still_pending(entry_views(prompts@), sizes@, pending@, now),
    {
        let ghost ps = entry_views(prompts@);
        let mut visible: Vec<PromptEntry> = Vec::new();
        let mut next: Vec<(String, u128)> = Vec::new();
        let mut i: usize = 0;
        while i < prompts.len()
            invariant
                i <= prompts.len() == sizes.len(),
                ps == entry_views(prompts@),
                entry_views(visible@) == shown(ps.take(i as int), sizes@, pending@, now),
                pending_views(next@) == still_pending(ps.take(i as int), sizes@, pending@, now),
            decreases prompts.len() - i,
        {
            let ghost pre = ps.take(i as int);
            let ghost nx = ps.take(i + 1);
            assert(nx.drop_last() == pre);
            assert(nx.last() == prompts@[i as int]@);
            let hidden = match find_created(pending, &prompts[i].id) {
                Some(c) => {
                    if Self::pending_hidden(sizes[i], c, now) {
                        Some(c)
                    } else {
                        None
                    }
                },
                None => None,
            };
            assert(hidden == hidden_since(prompts@[i as int]@, sizes@[i as int], pending@, now));
            match hidden {
                Some(c) => {
                    let ghost d = next@;
                    next.push((prompts[i].id.clone(), c));
                    assert(pending_views(next@) =~= pending_views(d).push(
                        (prompts@[i as int]@.id, c),
                    ));
                },
                None => {
                    let ghost d = visible@;
                    visible.push(prompts[i].duplicate());
                    assert(entry_views(visible@) =~= entry_views(d).push(prompts@[i as int]@));
                },
            }
            i += 1;
        }
        assert(ps.take(i as int) == ps);
        (visible, next)
    }

    /// Rebuilds every preview for a new budget, clamped into its range.
    pub fn apply_preview_chars(prompts: &mut Vec<PromptEntry>, preview_chars: u32)
        ensures
            final(prompts).len() == old(prompts).len(),
            forall|i: int|
                0 <= i < final(prompts).len() ==> {
                    let e = #[trigger] final(prompts)@[i];
                    let o = old(prompts)@[i];
                    &&& e@.id == o@.id
                    &&& e@.title == o@.title
                    &&& e@.body == o@.body
                    &&& e@.tags == o@.tags
                    &&& e@.path == o@.path
                    &&& e.preview@ == preview_of(o.body@, clamp_spec(preview_chars) as int)
                },
    {
        let n = Self::clamp_preview_chars(preview_chars) as usize;
        let mut i: usize = 0;
        while i < prompts.len()
            invariant
                i <= prompts.len() == old(prompts).len(),
                n == clamp_spec(preview_chars),
                forall|j: int|
                    0 <= j < prompts.len() ==> {
                        let e = #[trigger] prompts@[j];
                        let o = old(prompts)@[j];
                        &&& e@.id == o@.id
                        &&& e@.title == o@.title
                        &&& e@.body == o@.body
                        &&& e@.tags == o@.tags
                        &&& e@.path == o@.path
                        &&& j < i ==> e.preview@ == preview_of(o.body@, n as int)
                        &&& j >= i ==> e@.preview == o@.preview
                    },
            decreases prompts.len() - i,
        {
            let p = make_preview(prompts[i].body.as_str(), n);
            let mut e = prompts[i].duplicate();
            e.preview = p;
            prompts.set(i, e);
            i += 1;
        }
    }
}

} // verus!
