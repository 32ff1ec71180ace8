use vstd::prelude::*;

use crate::text::{copy_strings, str_views};

verus! {

/// User settings of the launcher.
#[derive(Debug, Clone)]
pub struct AppConfig {
    pub prompts_dir: String,
    pub auto_paste: bool,
    pub append_clipboard: bool,
    pub hotkey: String,
    pub auto_start: bool,
    pub favorites: Vec<String>,
    pub recent_ids: Vec<String>,
    pub recent_enabled: bool,
    /// (prompt id, last use in milliseconds) pairs.
    pub recent_meta: Vec<(String, i64)>,
    pub top_tags_use_results: bool,
    pub top_tags_limit: u32,
    pub show_shortcuts_hint: bool,
    pub preview_chars: u32,
}

/// How many top tags are shown by default.
pub fn default_top_tags_limit() -> (r: u32)
    ensures
        r == 8,
{
    8
}

/// Whether the shortcuts hint is shown by default.
pub fn default_show_shortcuts_hint() -> (r: bool)
    ensures
        r,
{
    true
}

/// The default preview budget, in characters.
pub fn default_preview_chars() -> (r: u32)
    ensures
        r == 50,
{
    50
}

impl Default for AppConfig {
    fn default() -> (r: Self)
        ensures
            r.prompts_dir@.len() == 0,
            r.auto_paste,
            !r.append_clipboard,
            r.hotkey@ == "Alt+Space"@,
            !r.auto_start,
            r.favorites@.len() == 0,
            r.recent_ids@.len() == 0,
            r.recent_enabled,
            r.recent_meta@.len() == 0,
            !r.top_tags_use_results,
            r.top_tags_limit == 8,
            r.show_shortcuts_hint,
            r.preview_chars == 50,
    {
        AppConfig {
            prompts_dir: String::new(),
            auto_paste: true,
            append_clipboard: false,
            hotkey: "Alt+Space".to_owned(),
            auto_start: false,
            favorites: Vec::new(),
            recent_ids: Vec::new(),
            recent_enabled: true,
            recent_meta: Vec::new(),
            top_tags_use_results: false,
            top_tags_limit: default_top_tags_limit(),
            show_shortcuts_hint: default_show_shortcuts_hint(),
            preview_chars: default_preview_chars(),
        }
    }
}

/// First position of `id` in `s`, or `s.len()`.
pub open spec fn position_of(s: Seq<Seq<char>>, id: Seq<char>, j: int) -> int
    decreases s.len() - j,
{
    if j < 0 || j >= s.len() {
        s.len() as int
    } else if s[j] == id {
        j
    } else {
        position_of(s, id, j + 1)
    }
}

/// The favorites after toggling `id`: its first occurrence removed if it is there, else
/// appended.
pub open spec fn toggled(s: Seq<Seq<char>>, id: Seq<char>) -> Seq<Seq<char>> {
    let p = position_of(s, id, 0);
    if p < s.len() {
        s.remove(p)
    } else {
        s.push(id)
    }
}

/// Most recently used prompts kept.
pub const RECENT_LIMIT: usize = 20;

/// The recently used prompts and when each was last used.
#[derive(Debug, Clone)]
pub struct RecentState {
    pub recent_ids: Vec<String>,
    pub recent_meta: Vec<(String, i64)>,
}

/// `s` without the entries equal to `id`.
pub open spec fn without(s: Seq<Seq<char>>, id: Seq<char>) -> Seq<Seq<char>>
    decreases s.len(),
{
    if s.len() == 0 {
        Seq::empty()
    } else if s.last() == id {
        without(s.drop_last(), id)
    } else {
        without(s.drop_last(), id).push(s.last())
    }
}

/// The recent list after using `id`: moved (or added) to the front, at most 20 kept.
pub open spec fn recent_after(ids: Seq<Seq<char>>, id: Seq<char>) -> Seq<Seq<char>> {
    let r = seq![id] + without(ids, id);
    if r.len() > RECENT_LIMIT {
        r.take(RECENT_LIMIT as int)
    } else {
        r
    }
}

/// Last use of each id; where an id repeats, the later pair counts.
pub open spec fn meta_map(s: Seq<(String, i64)>) -> Map<Seq<char>, i64>
    decreases s.len(),
{
    if s.len() == 0 {
        Map::empty()
    } else {
        meta_map(s.drop_last()).insert(s.last().0@, s.last().1)
    }
}

/// Last-use times after using `id` at `now`: `id` stamped unless it is empty, and only
/// the ids still in the recent list kept.
pub open spec fn meta_after(m: Map<Seq<char>, i64>, ids: Seq<Seq<char>>, id: Seq<char>, now: i64) -> Map<
    Seq<char>,
    i64,
> {
    (if id.len() > 0 {
        m.insert(id, now)
    } else {
        m
    }).restrict(ids.to_set())
}

fn copy_meta(v: &Vec<(String, i64)>) -> (r: Vec<(String, i64)>)
    ensures
        meta_map(r@) == meta_map(v@),
{
    let mut r: Vec<(String, i64)> = Vec::new();
    let mut i: usize = 0;
    assert(v@.take(0) =~= Seq::<(String, i64)>::empty());
    while i < v.len()
        invariant
            i <= v.len(),
            meta_map(r@) == meta_map(v@.take(i as int)),
        decreases v.len() - i,
    {
        let ghost next = v@.take(i + 1);
        assert(next.drop_last() == v@.take(i as int));
        let ghost d = r@;
        r.push((v[i].0.clone(), v[i].1));
        assert(r@.drop_last() == d);
        i += 1;
    }
    assert(v@.take(i as int) == v@);
    r
}

fn contains_string(v: &Vec<String>, x: &String) -> (r: bool)
    ensures
        r == str_views(v@).contains(x@),
{
    let mut i: usize = 0;
    while i < v.len()
        invariant
            i <= v.len(),
            forall|j: int| 0 <= j < i ==> v@[j]@ != x@,
        decreases v.len() - i,
    {
        if v[i] == *x {
            assert(str_views(v@)[i as int] == x@);
            return true;
        }
        i += 1;
    }
    assert forall|j: int| 0 <= j < str_views(v@).len() implies str_views(v@)[j] != x@ by {
        assert(str_views(v@)[j] == v@[j]@);
    }
    false
}

impl AppConfig {
    /// Records a use of `id` at `now_ms`: it moves to the front of the recent list (at most
    /// 20 kept), gets its time stamped unless it is empty, and times of ids no longer in the
    /// list are dropped.
    pub fn push_recent(&mut self, id: String, now_ms: i64) -> (r: RecentState)
        ensures
            str_views(final(self).recent_ids@) == recent_after(str_views(old(self).recent_ids@), id@),
            meta_map(final(self).recent_meta@) == meta_after(
                meta_map(old(self).recent_meta@),
                recent_after(str_views(old(self).recent_ids@), id@),
                id@,
                now_ms,
            ),
            str_views(r.recent_ids@) == str_views(final(self).recent_ids@),
            meta_map(r.recent_meta@) == meta_map(final(self).recent_meta@),
    {
        let ghost old_ids = str_views(self.recent_ids@);
        let mut ids: Vec<String> = Vec::new();
        ids.push(id.clone());
        assert(str_views(ids@) =~= seq![id@] + without(old_ids.take(0), id@));
        let mut i: usize = 0;
        while i < self.recent_ids.len()
            invariant
                i <= self.recent_ids.len(),
                old_ids == str_views(self.recent_ids@),
                str_views(ids@) == seq![id@] + without(old_ids.take(i as int), id@),
            decreases self.recent_ids.len() - i,
        {
            let ghost next = old_ids.take(i + 1);
            assert(next.drop_last() == old_ids.take(i as int));
            assert(next.last() == self.recent_ids@[i as int]@);
            if self.recent_ids[i] != id {
                let ghost d = ids@;
                ids.push(self.recent_ids[i].clone());
                assert(str_views(ids@) =~= str_views(d).push(self.recent_ids@[i as int]@));
            }
            i += 1;
        }
        assert(old_ids.take(i as int) == old_ids);
        let ghost full = str_views(ids@);
        ids.truncate(RECENT_LIMIT);
        assert(str_views(ids@) =~= recent_after(old_ids, id@));
        let ghost keep = str_views(ids@).to_set();
        let ghost m0 = meta_map(self.recent_meta@);
        let ghost s = self.recent_meta@;
        let stamp = !id.as_str().is_empty();
        assert(stamp == (id@.len() > 0));
        let mut kept: Vec<(String, i64)> = Vec::new();
        let mut j: usize = 0;
        assert(s.take(0) =~= Seq::<(String, i64)>::empty());
        assert(meta_map(kept@) =~= (if stamp {
            meta_map(s.take(0)).remove(id@)
        } else {
            meta_map(s.take(0))
        }).restrict(keep));
        while j < self.recent_meta.len()
            invariant
                j <= self.recent_meta.len(),
                s == self.recent_meta@,
                keep == str_views(ids@).to_set(),
                stamp == (id@.len() > 0),
                meta_map(kept@) == (if stamp {
                    meta_map(s.take(j as int)).remove(id@)
                } else {
                    meta_map(s.take(j as int))
                }).restrict(keep),
            decreases self.recent_meta.len() - j,
        {
            let ghost next = s.take(j + 1);
            assert(next.drop_last() == s.take(j as int));
            assert(next.last() == s[j as int]);
            let key = &self.recent_meta[j].0;
            let listed = contains_string(&ids, key);
            assert(listed == keep.contains(key@));
            if listed && (!stamp || *key != id) {
                let ghost d = kept@;
                kept.push((key.clone(), self.recent_meta[j].1));
                assert(kept@.drop_last() == d);
            }
            assert(meta_map(kept@) =~= (if stamp {
                meta_map(next).remove(id@)
            } else {
                meta_map(next)
            }).restrict(keep));
            j += 1;
        }
        assert(s.take(j as int) == s);
        if stamp {
            let ghost d = kept@;
            kept.push((id, now_ms));
            assert(kept@.drop_last() == d);
            assert(str_views(ids@)[0] == id@);
            assert(keep.contains(id@));
        }
        assert(meta_map(kept@) =~= meta_after(m0, str_views(ids@), id@, now_ms));
        self.recent_ids = ids;
        self.recent_meta = kept;
        RecentState {
            recent_ids: copy_strings(&self.recent_ids),
            recent_meta: copy_meta(&self.recent_meta),
        }
    }

    /// Sets how many top tags are shown, brought into 1 to 20.
    pub fn set_top_tags_limit(&mut self, limit: u32)
        ensures
            final(self).top_tags_limit == (if limit < 1 {
                1
            } else if limit > 20 {
                20
            } else {
                limit
            }),
    {
        self.top_tags_limit = if limit < 1 {
            1
        } else if limit > 20 {
            20
        } else {
            limit
        };
    }

    /// Forgets every recent use.
    pub fn clear_recent(&mut self) -> (r: RecentState)
        ensures
            final(self).recent_ids@.len() == 0,
            final(self).recent_meta@.len() == 0,
            r.recent_ids@.len() == 0,
            r.recent_meta@.len() == 0,
    {
        self.recent_ids = Vec::new();
        self.recent_meta = Vec::new();
        RecentState { recent_ids: Vec::new(), recent_meta: Vec::new() }
    }

    /// Adds `id` to the favorites, or takes it out if it is there; returns the new list.
    pub fn toggle_favorite(&mut self, id: String) -> (r: Vec<String>)
        ensures
            str_views(final(self).favorites@) == toggled(str_views(old(self).favorites@), id@),
            str_views(r@) == str_views(final(self).favorites@),
    {
        let ghost s = str_views(self.favorites@);
        let mut j: usize = 0;
        while j < self.favorites.len() && self.favorites[j] != id
            invariant
                j <= self.favorites.len(),
                s == str_views(self.favorites@),
                position_of(s, id@, 0) == position_of(s, id@, j as int),
            decreases self.favorites.len() - j,
        {
            assert(s[j as int] == self.favorites@[j as int]@);
            j += 1;
        }
        if j < self.favorites.len() {
            assert(s[j as int] == self.favorites@[j as int]@);
            self.favorites.remove(j);
            assert(str_views(self.favorites@) =~= s.remove(j as int));
        } else {
            let ghost v = id@;
            self.favorites.push(id);
            assert(str_views(self.favorites@) =~= s.push(v));
        }
        let mut r: Vec<String> = Vec::new();
        let mut i: usize = 0;
        while i < self.favorites.len()
            invariant
                i <= self.favorites.len(),
                str_views(r@) == str_views(self.favorites@).take(i as int),
            decreases self.favorites.len() - i,
        {
            let ghost d = r@;
            r.push(self.favorites[i].clone());
            assert(str_views(r@) =~= str_views(d).push(self.favorites@[i as int]@));
            assert(str_views(self.favorites@).take(i + 1) =~= str_views(self.favorites@).take(
                i as int,
            ).push(self.favorites@[i as int]@));
            i += 1;
        }
        assert(str_views(self.favorites@).take(i as int) =~= str_views(self.favorites@));
        r
    }
}

} // verus!
