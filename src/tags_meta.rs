use vstd::prelude::*;

use crate::text::{chars_of, copy_strings, str_views, string_of};

verus! {

/// Name of the metadata file at the root of a prompts directory.
pub const TAGS_META_FILENAME: &'static str = ".tags.json";

/// What `Path::components` yields for the path with the given text under the target's
/// path syntax, each component as its text.
pub uninterp spec fn components_of(p: Seq<char>) -> Seq<Seq<char>>;

/// Relies on `std::path::Path::components`: the components of the path, in order, each
/// as its text (a valid UTF-8 path converts without loss).
#[verifier::external_body]
pub(crate) fn path_components(p: &str) -> (r: Vec<String>)
    ensures
        str_views(r@) == components_of(p@),
{
    let mut r = Vec::new();
    for c in std::path::Path::new(p).components() {
        r.push(c.as_os_str().to_string_lossy().into_owned());
    }
    r
}

/// What `Path::join` gives for the two path texts under the target's path syntax.
pub uninterp spec fn joined_of(base: Seq<char>, rel: Seq<char>) -> Seq<char>;

/// Relies on `std::path::Path::join`: `rel` adjoined to `base`.
#[verifier::external_body]
pub(crate) fn path_join(base: &str, rel: &str) -> (r: String)
    ensures
        r@ == joined_of(base@, rel@),
{
    std::path::Path::new(base).join(rel).to_string_lossy().into_owned()
}

/// The components of `path` below `root`, if `root` is a component-wise prefix of it
/// (`Path::strip_prefix`).
pub open spec fn relative_components(root: Seq<char>, path: Seq<char>) -> Option<Seq<Seq<char>>> {
    let rc = components_of(root);
    let pc = components_of(path);
    if rc.len() <= pc.len() && pc.take(rc.len() as int) == rc {
        Some(pc.skip(rc.len() as int))
    } else {
        None
    }
}

/// The entries joined with `sep` between them.
pub open spec fn join_with(ws: Seq<Seq<char>>, sep: char) -> Seq<char>
    decreases ws.len(),
{
    if ws.len() == 0 {
        Seq::empty()
    } else if ws.len() == 1 {
        ws[0]
    } else {
        join_with(ws.drop_last(), sep) + seq![sep] + ws.last()
    }
}

/// The metadata key of `path`: its components below `root` (all of them when it is not
/// below `root`) joined with `/`.
pub open spec fn key_of(root: Seq<char>, path: Seq<char>) -> Seq<char> {
    match relative_components(root, path) {
        Some(rel) => join_with(rel, '/'),
        None => join_with(components_of(path), '/'),
    }
}

/// The path of the metadata file of the prompts directory `root`.
pub fn tags_meta_path(root: &str) -> (r: String)
    ensures
        r@ == joined_of(root@, TAGS_META_FILENAME@),
{
    path_join(root, TAGS_META_FILENAME)
}

fn chars_prefix_eq(a: &Vec<String>, b: &Vec<String>) -> (r: bool)
    requires
        a.len() <= b.len(),
    ensures
        r == (str_views(b@).take(a.len() as int) == str_views(a@)),
{
    let mut i: usize = 0;
    while i < a.len()
        invariant
            i <= a.len() <= b.len(),
            forall|j: int| 0 <= j < i ==> a@[j]@ == b@[j]@,
        decreases a.len() - i,
    {
        if a[i] != b[i] {
            assert(str_views(b@).take(a.len() as int)[i as int] != str_views(a@)[i as int]);
            return false;
        }
        i += 1;
    }
    assert(str_views(b@).take(a.len() as int) =~= str_views(a@));
    true
}

/// The components of `path` below `root`, if it lies below it.
pub fn relative_path_components(root: &str, path: &str) -> (r: Option<Vec<String>>)
    ensures
        match r {
            Some(v) => relative_components(root@, path@) == Some(str_views(v@)),
            None => relative_components(root@, path@) is None,
        },
{
    let rc = path_components(root);
    let pc = path_components(path);
    if rc.len() > pc.len() || !chars_prefix_eq(&rc, &pc) {
        return None;
    }
    let mut rest: Vec<String> = Vec::new();
    let mut i = rc.len();
    while i < pc.len()
        invariant
            rc.len() <= i <= pc.len(),
            str_views(rest@) == str_views(pc@).subrange(rc.len() as int, i as int),
        decreases pc.len() - i,
    {
        let ghost d = rest@;
        rest.push(pc[i].clone());
        assert(str_views(rest@) =~= str_views(d).push(pc@[i as int]@));
        assert(str_views(pc@).subrange(rc.len() as int, i + 1) =~= str_views(pc@).subrange(
            rc.len() as int,
            i as int,
        ).push(pc@[i as int]@));
        i += 1;
    }
    assert(str_views(pc@).subrange(rc.len() as int, i as int) =~= str_views(pc@).skip(
        rc.len() as int,
    ));
    Some(rest)
}

/// The entries joined with `sep` between them.
pub fn join_strings(ws: &Vec<String>, sep: char) -> (r: String)
    ensures
        r@ == join_with(str_views(ws@), sep),
{
    let mut r: Vec<char> = Vec::new();
    let mut i: usize = 0;
    while i < ws.len()
        invariant
            i <= ws.len(),
            r@ == join_with(str_views(ws@).take(i as int), sep),
        decreases ws.len() - i,
    {
        let ghost next = str_views(ws@).take(i + 1);
        assert(next.drop_last() == str_views(ws@).take(i as int));
        assert(next.last() == ws@[i as int]@);
        if i > 0 {
            r.push(sep);
        }
        let mut c = chars_of(ws[i].as_str());
        r.append(&mut c);
        proof {
            if i == 0 {
                assert(r@ == next[0]);
            }
        }
        i += 1;
    }
    assert(str_views(ws@).take(i as int) == str_views(ws@));
    string_of(&r)
}

/// The metadata key of `path` below `root`: its components below `root`, joined with `/`
/// whatever the platform's separator; a path outside `root` keeps all its components.
pub fn path_to_key(root: &str, path: &str) -> (r: String)
    ensures
        r@ == key_of(root@, path@),
{
    match relative_path_components(root, path) {
        Some(rel) => join_strings(&rel, '/'),
        None => {
            let pc = path_components(path);
            join_strings(&pc, '/')
        },
    }
}

/// The metadata schema version this library writes.
pub fn default_version() -> (r: u32)
    ensures
        r == 1,
{
    1
}

/// The explicit tag lists of a prompts directory, keyed by path key.
#[derive(Debug, Clone)]
pub struct TagsMeta {
    pub version: u32,
    pub updated_at: i64,
    /// (path key, tags) pairs; where a key repeats, the later pair counts.
    pub tags_by_path: Vec<(String, Vec<String>)>,
}

/// The map that a list of (key, tags) pairs stands for; later pairs win.
pub open spec fn entries_map(s: Seq<(String, Vec<String>)>) -> Map<Seq<char>, Seq<Seq<char>>>
    decreases s.len(),
{
    if s.len() == 0 {
        Map::empty()
    } else {
        entries_map(s.drop_last()).insert(s.last().0@, str_views(s.last().1@))
    }
}

/// Last position before `n` whose key is `key`, or -1.
pub open spec fn last_key_index(s: Seq<(String, Vec<String>)>, key: Seq<char>, n: int) -> int
    decreases n,
{
    if n <= 0 || n > s.len() {
        -1
    } else if s[n - 1].0@ == key {
        n - 1
    } else {
        last_key_index(s, key, n - 1)
    }
}

proof fn lemma_last_key_index(s: Seq<(String, Vec<String>)>, key: Seq<char>, n: int)
    requires
        0 <= n <= s.len(),
    ensures
        ({
            let j = last_key_index(s, key, n);
            &&& -1 <= j < n
            &&& j >= 0 ==> s[j].0@ == key
            &&& forall|i: int| j < i < n ==> #[trigger] s[i].0@ != key
            &&& j >= 0 ==> entries_map(s.take(n)).contains_key(key) && entries_map(s.take(n))[key]
                == str_views(s[j].1@)
            &&& j < 0 ==> !entries_map(s.take(n)).contains_key(key)
        }),
    decreases n,
{
    if n > 0 {
        lemma_last_key_index(s, key, n - 1);
        assert(s.take(n).drop_last() == s.take(n - 1));
    } else {
        assert(s.take(0) =~= Seq::<(String, Vec<String>)>::empty());
    }
}

proof fn lemma_entries_update(s: Seq<(String, Vec<String>)>, j: int, x: (String, Vec<String>))
    requires
        0 <= j < s.len(),
        s[j].0@ == x.0@,
        forall|i: int| j < i < s.len() ==> #[trigger] s[i].0@ != x.0@,
    ensures
        entries_map(s.update(j, x)) == entries_map(s).insert(x.0@, str_views(x.1@)),
    decreases s.len(),
{
    if j == s.len() - 1 {
        assert(s.update(j, x).drop_last() == s.drop_last());
        assert(entries_map(s.update(j, x)) =~= entries_map(s).insert(x.0@, str_views(x.1@)));
    } else {
        lemma_entries_update(s.drop_last(), j, x);
        assert(s.update(j, x).drop_last() == s.drop_last().update(j, x));
        assert(s.update(j, x).last() == s.last());
        assert(entries_map(s.update(j, x)) =~= entries_map(s).insert(x.0@, str_views(x.1@)));
    }
}

impl TagsMeta {
    /// The explicit tag list of each path key.
    pub open spec fn tags_map(&self) -> Map<Seq<char>, Seq<Seq<char>>> {
        entries_map(self.tags_by_path@)
    }

    /// Empty metadata, schema version 1, never updated.
    pub fn new() -> (r: Self)
        ensures
            r.version == 1,
            r.updated_at == 0,
            r.tags_map() == Map::<Seq<char>, Seq<Seq<char>>>::empty(),
    {
        TagsMeta { version: 1, updated_at: 0, tags_by_path: Vec::new() }
    }

    fn find_key(&self, key: &str) -> (r: Option<usize>)
        ensures
            match r {
                Some(j) => j == last_key_index(self.tags_by_path@, key@, self.tags_by_path.len()
                    as int),
                None => last_key_index(self.tags_by_path@, key@, self.tags_by_path.len() as int)
                    == -1,
            },
    {
        let k: String = key.to_owned();
        let n = self.tags_by_path.len();
        let mut i = n;
        while i > 0
            invariant
                i <= n == self.tags_by_path.len(),
                k@ == key@,
                last_key_index(self.tags_by_path@, key@, n as int) == last_key_index(
                    self.tags_by_path@,
                    key@,
                    i as int,
                ),
            decreases i,
        {
            if self.tags_by_path[i - 1].0 == k {
                return Some(i - 1);
            }
            i -= 1;
        }
        None
    }

    /// The explicit tag list of `key`, if it has one.
    pub fn get(&self, key: &str) -> (r: Option<Vec<String>>)
        ensures
            match r {
                Some(v) => self.tags_map().contains_key(key@) && self.tags_map()[key@]
                    == str_views(v@),
                None => !self.tags_map().contains_key(key@),
            },
    {
        proof {
            lemma_last_key_index(self.tags_by_path@, key@, self.tags_by_path.len() as int);
            assert(self.tags_by_path@.take(self.tags_by_path.len() as int)
                == self.tags_by_path@);
        }
        match self.find_key(key) {
            Some(j) => Some(copy_strings(&self.tags_by_path[j].1)),
            None => None,
        }
    }

    /// Sets the explicit tag list of `key`.
    pub fn insert(&mut self, key: String, tags: Vec<String>)
        ensures
            final(self).tags_map() == old(self).tags_map().insert(key@, str_views(tags@)),
            final(self).version == old(self).version,
            final(self).updated_at == old(self).updated_at,
    {
        let ghost s = self.tags_by_path@;
        proof {
            lemma_last_key_index(s, key@, s.len() as int);
            assert(s.take(s.len() as int) == s);
        }
        match self.find_key(key.as_str()) {
            Some(j) => {
                let ghost x = (key, tags);
                proof {
                    lemma_entries_update(s, j as int, x);
                }
                self.tags_by_path.set(j, (key, tags));
                assert(self.tags_by_path@ == s.update(j as int, x));
            },
            None => {
                self.tags_by_path.push((key, tags));
                assert(self.tags_by_path@.drop_last() == s);
            },
        }
    }
}

impl TagsMeta {
    /// Drops the explicit entry of `key`; tells whether there was one.
    pub fn remove(&mut self, key: &str) -> (r: bool)
        ensures
            r == old(self).tags_map().contains_key(key@),
            final(self).tags_map() == old(self).tags_map().remove(key@),
            final(self).version == old(self).version,
            final(self).updated_at == old(self).updated_at,
    {
        let k: String = key.to_owned();
        let ghost s = self.tags_by_path@;
        let mut kept: Vec<(String, Vec<String>)> = Vec::new();
        let mut found = false;
        let mut i: usize = 0;
        assert(s.take(0) =~= Seq::<(String, Vec<String>)>::empty());
        assert(entries_map(kept@) =~= entries_map(s.take(0)).remove(key@));
        while i < self.tags_by_path.len()
            invariant
                i <= self.tags_by_path.len(),
                s == self.tags_by_path@,
                k@ == key@,
                entries_map(kept@) == entries_map(s.take(i as int)).remove(key@),
                found == entries_map(s.take(i as int)).contains_key(key@),
            decreases self.tags_by_path.len() - i,
        {
            let ghost next = s.take(i + 1);
            assert(next.drop_last() == s.take(i as int));
            assert(next.last() == s[i as int]);
            if self.tags_by_path[i].0 == k {
                found = true;
                assert(entries_map(kept@) =~= entries_map(next).remove(key@));
            } else {
                let entry = (self.tags_by_path[i].0.clone(), copy_strings(&self.tags_by_path[i].1));
                let ghost d = kept@;
                kept.push(entry);
                assert(kept@.drop_last() == d);
                assert(entries_map(kept@) =~= entries_map(next).remove(key@));
            }
            i += 1;
        }
        assert(s.take(i as int) == s);
        self.tags_by_path = kept;
        found
    }
}

/// Every key of the pairs has an entry in the map.
proof fn lemma_entries_keys(s: Seq<(String, Vec<String>)>, j: int)
    requires
        0 <= j < s.len(),
    ensures
        entries_map(s).contains_key(s[j].0@),
{
    lemma_last_key_index(s, s[j].0@, s.len() as int);
    assert(s.take(s.len() as int) == s);
    if last_key_index(s, s[j].0@, s.len() as int) < j {
        assert(s[j].0@ != s[j].0@);
    }
}

/// Every key of the map comes from some pair.
proof fn lemma_entries_source(s: Seq<(String, Vec<String>)>, k: Seq<char>)
    requires
        entries_map(s).contains_key(k),
    ensures
        exists|j: int| 0 <= j < s.len() && #[trigger] s[j].0@ == k,
{
    lemma_last_key_index(s, k, s.len() as int);
    assert(s.take(s.len() as int) == s);
    let j = last_key_index(s, k, s.len() as int);
    assert(s[j].0@ == k);
}

fn same_strings(a: &Vec<String>, b: &Vec<String>) -> (r: bool)
    ensures
        r == (str_views(a@) == str_views(b@)),
{
    if a.len() != b.len() {
        return false;
    }
    let mut i: usize = 0;
    while i < a.len()
        invariant
            i <= a.len() == b.len(),
            forall|j: int| 0 <= j < i ==> a@[j]@ == b@[j]@,
        decreases a.len() - i,
    {
        if a[i] != b[i] {
            assert(str_views(a@)[i as int] != str_views(b@)[i as int]);
            return false;
        }
        i += 1;
    }
    assert(str_views(a@) =~= str_views(b@));
    true
}

/// Whether every key of `a` has the same tags in `b`.
fn covered_by(a: &TagsMeta, b: &TagsMeta) -> (r: bool)
    ensures
        r == forall|k: Seq<char>| #[trigger]
            a.tags_map().contains_key(k) ==> b.tags_map().contains_key(k) && b.tags_map()[k]
                == a.tags_map()[k],
{
    let mut i: usize = 0;
    while i < a.tags_by_path.len()
        invariant
            i <= a.tags_by_path.len(),
            forall|j: int|
                0 <= j < i ==> b.tags_map().contains_key(#[trigger] a.tags_by_path@[j].0@)
                    && b.tags_map()[a.tags_by_path@[j].0@] == a.tags_map()[a.tags_by_path@[j].0@],
        decreases a.tags_by_path.len() - i,
    {
        let key = a.tags_by_path[i].0.as_str();
        proof {
            lemma_entries_keys(a.tags_by_path@, i as int);
        }
        let ok = match (a.get(key), b.get(key)) {
            (Some(x), Some(y)) => same_strings(&x, &y),
            _ => false,
        };
        if !ok {
            return false;
        }
        i += 1;
    }
    assert forall|k: Seq<char>| #[trigger] a.tags_map().contains_key(k) implies b.tags_map().contains_key(
        k,
    ) && b.tags_map()[k] == a.tags_map()[k] by {
        lemma_entries_source(a.tags_by_path@, k);
        let j = choose|j: int| 0 <= j < a.tags_by_path@.len() && #[trigger] a.tags_by_path@[j].0@ == k;
    }
    true
}

/// Two metadata values are equal when they have the same version, time stamp and map;
/// the order of the pairs does not matter.
impl PartialEq for TagsMeta {
    fn eq(&self, other: &TagsMeta) -> (r: bool) {
        let same = self.version == other.version && self.updated_at == other.updated_at
            && covered_by(self, other) && covered_by(other, self);
        proof {
            if covered_by_spec(self, other) && covered_by_spec(other, self) {
                assert(self.tags_map() =~= other.tags_map());
            }
        }
        same
    }
}

spec fn covered_by_spec(a: &TagsMeta, b: &TagsMeta) -> bool {
    forall|k: Seq<char>| #[trigger]
        a.tags_map().contains_key(k) ==> b.tags_map().contains_key(k) && b.tags_map()[k]
            == a.tags_map()[k]
}

impl vstd::std_specs::cmp::PartialEqSpecImpl for TagsMeta {
    open spec fn obeys_eq_spec() -> bool {
        true
    }

    open spec fn eq_spec(&self, other: &TagsMeta) -> bool {
        self.version == other.version && self.updated_at == other.updated_at && self.tags_map()
            == other.tags_map()
    }
}

impl Eq for TagsMeta {}

impl Default for TagsMeta {
    fn default() -> (r: Self)
        ensures
            r.version == 1,
            r.updated_at == 0,
            r.tags_map() == Map::<Seq<char>, Seq<Seq<char>>>::empty(),
    {
        TagsMeta::new()
    }
}

/// The tags of `path`: its explicit entry in `meta` when there is one, else `fallback`.
pub fn resolve_tags_for_path(meta: &TagsMeta, root: &str, path: &str, fallback: Vec<String>) -> (r:
    Vec<String>)
    ensures
        str_views(r@) == if meta.tags_map().contains_key(key_of(root@, path@)) {
            meta.tags_map()[key_of(root@, path@)]
        } else {
            str_views(fallback@)
        },
{
    let key = path_to_key(root, path);
    match meta.get(key.as_str()) {
        Some(tags) => tags,
        None => fallback,
    }
}

/// Relies on `SystemTime::now` and `duration_since(UNIX_EPOCH)`: whole seconds since the
/// Unix epoch, 0 for a clock set before it.
#[verifier::external_body]
fn unix_now_secs() -> (r: i64)
    ensures
        r >= 0,
{
    match std::time::SystemTime::now().duration_since(std::time::UNIX_EPOCH) {
        Ok(d) => d.as_secs() as i64,
        Err(_) => 0,
    }
}

/// Stamps the metadata with the time `now`; nothing else changes.
pub fn set_updated_at(meta: &mut TagsMeta, now: i64)
    ensures
        final(meta).updated_at == now,
        final(meta).version == old(meta).version,
        final(meta).tags_by_path == old(meta).tags_by_path,
{
    meta.updated_at = now;
}

/// Stamps the metadata with the current Unix time in seconds; nothing else changes.
pub fn touch_updated_at(meta: &mut TagsMeta)
    ensures
        final(meta).updated_at >= 0,
        final(meta).version == old(meta).version,
        final(meta).tags_by_path == old(meta).tags_by_path,
{
    let now = unix_now_secs();
    set_updated_at(meta, now);
}

} // verus!
