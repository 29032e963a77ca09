//! Directory listings and the recursive directory walk.
//!
//! Reading the disk is left to the program: it hands this module what one
//! directory level holds, and this module decides what is shown and in
//! which order. The recursive walk of find mode is a small state machine
//! driven the same way: it names the next directory to read, and it is
//! told what that directory holds.

use vstd::prelude::*;
use vstd::string::*;
use std::time::SystemTime;
use crate::order::{permutes_range, sort_indices, sorted_by_keys, ordered_before};
use crate::text::{chars_of, opt_view, str_eq};

verus! {

#[verifier::external_type_specification]
#[verifier::external_body]
pub struct ExSystemTime(SystemTime);

/// One entry of a directory level.
pub struct Entry {
    pub name: String,
    pub path: String,
    pub is_dir: bool,
    pub is_hidden: bool,
    /// File size in bytes (0 for directories).
    pub size: u64,
    pub modified: Option<SystemTime>,
}

/// What the disk says of one entry of a directory, before any rule is
/// applied: its name and path, whether it is a directory (symlinks to
/// directories count as directories), its length in bytes (0 when its
/// metadata cannot be read) and when it was last modified.
pub struct RawEntry {
    pub name: String,
    pub path: String,
    pub is_dir: bool,
    pub len: u64,
    pub modified: Option<SystemTime>,
}

/// The lower-case form of `s` (`str::to_lowercase`).
pub uninterp spec fn lowercase(s: Seq<char>) -> Seq<char>;

/// `str::to_lowercase`: the Unicode lower-case form of `s`, a function of
/// `s` alone.
#[verifier::external_body]
fn to_lowercase(s: &str) -> (r: String)
    ensures
        r@ == lowercase(s@),
{
    s.to_lowercase()
}

/// A copy of `e`.
fn copy_entry(e: &Entry) -> (r: Entry)
    ensures
        r == *e,
{
    Entry {
        name: e.name.clone(),
        path: e.path.clone(),
        is_dir: e.is_dir,
        is_hidden: e.is_hidden,
        size: e.size,
        modified: e.modified,
    }
}

/// The characters of `s` as sort-key values.
pub open spec fn char_keys(s: Seq<char>) -> Seq<u64> {
    s.map_values(|c: char| c as u64)
}

/// The sort key of a listing entry: directories first, then the name
/// compared case-insensitively.
pub open spec fn entry_key(e: Entry) -> Seq<u64> {
    seq![if e.is_dir { 0u64 } else { 1u64 }] + char_keys(lowercase(e.name@))
}

/// Appends the characters of `s` to the key `k`.
fn push_char_keys(k: &mut Vec<u64>, s: &str)
    ensures
        final(k)@ == old(k)@ + char_keys(s@),
{
    let cs = chars_of(s);
    let mut i: usize = 0;
    let ghost start = k@;
    while i < cs.len()
        invariant
            cs@ == s@,
            i <= cs@.len(),
            k@ == start + char_keys(cs@.take(i as int)),
        decreases cs@.len() - i,
    {
        k.push(cs[i] as u64);
        i = i + 1;
        assert(char_keys(cs@.take(i as int)) =~= char_keys(cs@.take(i - 1)).push(cs@[i - 1] as u64));
        assert(k@ =~= start + char_keys(cs@.take(i as int)));
    }
    assert(cs@.take(cs@.len() as int) =~= cs@);
}

/// `r` holds the items of `v` in the order `perm` gives.
pub open spec fn permuted<T>(v: Seq<T>, perm: Seq<usize>, r: Seq<T>) -> bool {
    &&& r.len() == perm.len()
    &&& forall|k: int| 0 <= k < r.len() ==> r[k] == v[#[trigger] perm[k] as int]
}

/// `r` is `es` stably sorted by `entry_key`: the permutation `perm` that
/// takes `es` to `r` lists the entries in increasing key order, equal keys
/// in their input order.
pub open spec fn sorted_by_perm(es: Seq<Entry>, perm: Seq<usize>, r: Seq<Entry>) -> bool {
    &&& permutes_range(perm, 0, es.len() as int)
    &&& permuted(es, perm, r)
    &&& forall|a: int, b: int| 0 <= a < b < perm.len() ==> crate::order::key_lt(entry_key(es[#[trigger] perm[a] as int]), entry_key(es[#[trigger] perm[b] as int]))
        || (entry_key(es[perm[a] as int]) == entry_key(es[perm[b] as int]) && perm[a] < perm[b])
}

/// `r` is the listing `es` in display order.
pub open spec fn sorted_listing(es: Seq<Entry>, r: Seq<Entry>) -> bool {
    exists|perm: Seq<usize>| #[trigger] sorted_by_perm(es, perm, r)
}

/// Orders a directory level: directories first, then by case-insensitive
/// name; entries that compare equal keep their order.
pub fn sort_entries(entries: Vec<Entry>) -> (r: Vec<Entry>)
    ensures
        sorted_listing(entries@, r@),
{
    let mut keys: Vec<Vec<u64>> = Vec::new();
    let mut i: usize = 0;
    while i < entries.len()
        invariant
            i <= entries@.len(),
            keys@.len() == i,
            forall|k: int| 0 <= k < i ==> #[trigger] keys@[k]@ == entry_key(entries@[k]),
        decreases entries@.len() - i,
    {
        let mut key: Vec<u64> = Vec::new();
        key.push(if entries[i].is_dir { 0 } else { 1 });
        let lower = to_lowercase(entries[i].name.as_str());
        push_char_keys(&mut key, lower.as_str());
        keys.push(key);
        i = i + 1;
    }
    let perm = sort_indices(&keys);
    let mut r: Vec<Entry> = Vec::new();
    let mut k: usize = 0;
    while k < perm.len()
        invariant
            k <= perm@.len(),
            keys@.len() == entries@.len(),
            permutes_range(perm@, 0, keys@.len() as int),
            r@.len() == k,
            forall|m: int| 0 <= m < k ==> r@[m] == entries@[#[trigger] perm@[m] as int],
        decreases perm@.len() - k,
    {
        r.push(copy_entry(&entries[perm[k]]));
        k = k + 1;
    }
    proof {
        assert forall|a: int, b: int| 0 <= a < b < perm@.len() implies crate::order::key_lt(entry_key(entries@[#[trigger] perm@[a] as int]), entry_key(entries@[#[trigger] perm@[b] as int]))
            || (entry_key(entries@[perm@[a] as int]) == entry_key(entries@[perm@[b] as int]) && perm@[a] < perm@[b]) by {
            assert(ordered_before(keys@, perm@[a] as int, perm@[b] as int));
        }
        assert(permuted(entries@, perm@, r@));
        assert(sorted_by_perm(entries@, perm@, r@));
    }
    r
}

/// A name that starts with a dot is hidden.
pub open spec fn hidden_name(name: Seq<char>) -> bool {
    name.len() > 0 && name[0] == '.'
}

fn is_hidden_name(name: &str) -> (r: bool)
    ensures
        r == hidden_name(name@),
{
    name.unicode_len() > 0 && name.get_char(0) == '.'
}

/// The listing entry for what the disk says of it: hidden when its name
/// starts with a dot, size 0 for a directory.
pub open spec fn entry_of(raw: RawEntry) -> Entry {
    Entry {
        name: raw.name,
        path: raw.path,
        is_dir: raw.is_dir,
        is_hidden: hidden_name(raw.name@),
        size: if raw.is_dir { 0 } else { raw.len },
        modified: raw.modified,
    }
}

/// The entries of `raw` that are shown: hidden ones only with
/// `show_hidden`.
pub open spec fn shown_entries(raw: Seq<RawEntry>, show_hidden: bool) -> Seq<Entry>
    decreases raw.len(),
{
    if raw.len() == 0 {
        Seq::empty()
    } else {
        let prev = shown_entries(raw.drop_last(), show_hidden);
        if show_hidden || !hidden_name(raw.last().name@) {
            prev.push(entry_of(raw.last()))
        } else {
            prev
        }
    }
}

/// One directory level as shown: hidden entries dropped unless
/// `show_hidden`, directories first, then by case-insensitive name.
pub fn build_listing(raw: Vec<RawEntry>, show_hidden: bool) -> (r: Vec<Entry>)
    ensures
        sorted_listing(shown_entries(raw@, show_hidden), r@),
{
    let mut shown: Vec<Entry> = Vec::new();
    let mut i: usize = 0;
    while i < raw.len()
        invariant
            i <= raw@.len(),
            shown@ == shown_entries(raw@.take(i as int), show_hidden),
        decreases raw@.len() - i,
    {
        let re = &raw[i];
        let hidden = is_hidden_name(re.name.as_str());
        proof {
            assert(raw@.take(i + 1).drop_last() =~= raw@.take(i as int));
        }
        if show_hidden || !hidden {
            shown.push(Entry {
                name: re.name.clone(),
                path: re.path.clone(),
                is_dir: re.is_dir,
                is_hidden: hidden,
                size: if re.is_dir { 0 } else { re.len },
                modified: re.modified,
            });
        }
        i = i + 1;
    }
    assert(raw@.take(raw@.len() as int) =~= raw@);
    sort_entries(shown)
}


// ---------------------------------------------------------------------------
// Recursive walk for find mode
// ---------------------------------------------------------------------------

/// A directory found by the walk.
pub struct FoundDir {
    pub path: String,
    /// Path relative to the walk root, for display and fuzzy matching.
    pub rel: String,
}

/// What the disk says of one entry of a directory being walked: its name,
/// its path, whether it is a directory (a symlink counts when it points to
/// one) and whether it is a symlink.
pub struct DirChild {
    pub name: String,
    pub path: String,
    pub is_dir: bool,
    pub is_symlink: bool,
}

/// What is left of `path` once `base` is taken off its front
/// (`Path::strip_prefix`), as a string; `None` when `base` is not a prefix
/// of `path`, component by component.
pub uninterp spec fn stripped_prefix(path: Seq<char>, base: Seq<char>) -> Option<Seq<char>>;

/// `Path::strip_prefix`, as strings: the rest of `path` after its leading
/// components equal to those of `base`, or `None` when `base` is not a
/// prefix of it; a function of the two strings alone. A path stripped of
/// itself leaves the empty path.
#[verifier::external_body]
fn strip_prefix_str(path: &str, base: &str) -> (r: Option<String>)
    ensures
        opt_view(r) == stripped_prefix(path@, base@),
        path@ == base@ ==> r is Some && r->0@.len() == 0,
{
    std::path::Path::new(path).strip_prefix(base).ok().map(|p| p.to_string_lossy().into_owned())
}

/// The path of `path` relative to the walk root `root`: `path` stripped of
/// `root`, or `path` itself when `root` is not a prefix of it.
pub open spec fn rel_of(path: Seq<char>, root: Seq<char>) -> Seq<char> {
    match stripped_prefix(path, root) {
        Some(rest) => rest,
        None => path,
    }
}

/// The path of `path` relative to the walk root `root`.
pub fn relative_to(path: &str, root: &str) -> (r: String)
    ensures
        r@ == rel_of(path@, root@),
{
    match strip_prefix_str(path, root) {
        Some(rest) => rest,
        None => String::from_str(path),
    }
}

/// A found directory as plain values: its path and its relative path.
pub open spec fn found_view(d: FoundDir) -> (Seq<char>, Seq<char>) {
    (d.path@, d.rel@)
}

/// Directory names never descended into (noise and huge trees).
pub open spec fn skipped_name(name: Seq<char>) -> bool {
    name == ".git"@ || name == "node_modules"@ || name == "target"@ || name == ".direnv"@
        || name == ".cache"@ || name == "result"@ || name == ".venv"@ || name == "__pycache__"@
}

fn is_skipped_name(name: &str) -> (r: bool)
    ensures
        r == skipped_name(name@),
{
    str_eq(name, ".git") || str_eq(name, "node_modules") || str_eq(name, "target") || str_eq(name, ".direnv")
        || str_eq(name, ".cache") || str_eq(name, "result") || str_eq(name, ".venv") || str_eq(name, "__pycache__")
}

/// The walk reports `c`: a directory, not skipped, and not hidden unless
/// hidden entries are shown.
pub open spec fn admitted(c: DirChild, show_hidden: bool) -> bool {
    !(hidden_name(c.name@) && !show_hidden) && !skipped_name(c.name@) && c.is_dir
}

/// The state of a walk: directories still to read with their depth, the
/// directories found (path and relative path), and whether the limit was
/// hit.
pub type WalkState = (Seq<(String, usize)>, Seq<(Seq<char>, Seq<char>)>, bool);

/// The walk state after meeting child `c` of a directory at `depth`: an
/// admitted child is reported, with its path relative to the walk root
/// `root`; the walk stops once `limit` directories are found; a reported
/// directory that is not a symlink is read later.
pub open spec fn visit_step(st: WalkState, c: DirChild, depth: usize, root: Seq<char>, show_hidden: bool, limit: usize) -> WalkState {
    if st.2 || !admitted(c, show_hidden) {
        st
    } else {
        let found = st.1.push((c.path@, rel_of(c.path@, root)));
        if found.len() >= limit {
            (st.0, found, true)
        } else if c.is_symlink {
            (st.0, found, false)
        } else {
            (st.0.push((c.path, (depth + 1) as usize)), found, false)
        }
    }
}

/// The walk state after meeting the children `cs` in order.
pub open spec fn visit_spec(st: WalkState, cs: Seq<DirChild>, depth: usize, root: Seq<char>, show_hidden: bool, limit: usize) -> WalkState
    decreases cs.len(),
{
    if cs.len() == 0 {
        st
    } else {
        visit_step(visit_spec(st, cs.drop_last(), depth, root, show_hidden, limit), cs.last(), depth, root, show_hidden, limit)
    }
}

/// The stack after taking the next directory to read, and that directory:
/// entries at `max_depth` or deeper are dropped unread.
pub open spec fn next_spec(stack: Seq<(String, usize)>, max_depth: usize) -> (Seq<(String, usize)>, Option<(String, usize)>)
    decreases stack.len(),
{
    if stack.len() == 0 {
        (stack, None)
    } else if stack.last().1 >= max_depth {
        next_spec(stack.drop_last(), max_depth)
    } else {
        (stack.drop_last(), Some(stack.last()))
    }
}

/// `d` was reported for the `j`-th child, which the walk admits.
pub open spec fn reported_from(cs: Seq<DirChild>, root: Seq<char>, show_hidden: bool, d: (Seq<char>, Seq<char>), j: int) -> bool {
    0 <= j < cs.len() && admitted(cs[j], show_hidden) && d == (cs[j].path@, rel_of(cs[j].path@, root))
}

/// `e` was queued for reading from the `j`-th child: an admitted directory
/// that is not a symlink, one level deeper.
pub open spec fn queued_from(cs: Seq<DirChild>, show_hidden: bool, depth: usize, e: (String, usize), j: int) -> bool {
    0 <= j < cs.len() && admitted(cs[j], show_hidden) && !cs[j].is_symlink && e == (cs[j].path, (depth + 1) as usize)
}

/// `d` was reported for some admitted child of `cs`.
pub open spec fn reported(cs: Seq<DirChild>, root: Seq<char>, show_hidden: bool, d: (Seq<char>, Seq<char>)) -> bool {
    exists|j: int| reported_from(cs, root, show_hidden, d, j)
}

/// `e` was queued from some admitted, non-symlink child of `cs`.
pub open spec fn queued(cs: Seq<DirChild>, show_hidden: bool, depth: usize, e: (String, usize)) -> bool {
    exists|j: int| queued_from(cs, show_hidden, depth, e, j)
}

/// Meeting children only ever adds to the walk: what was found and what
/// was queued stay, every newly found directory is an admitted child (a
/// directory, not hidden unless shown, not one of the skipped names), and
/// every newly queued directory is an admitted child that is not a symlink,
/// one level deeper, so symlinked trees are never entered.
pub proof fn lemma_walk_reports_admitted(st: WalkState, cs: Seq<DirChild>, depth: usize, root: Seq<char>, show_hidden: bool, limit: usize)
    ensures
        ({
            let r = visit_spec(st, cs, depth, root, show_hidden, limit);
            &&& r.1.len() >= st.1.len()
            &&& r.1.subrange(0, st.1.len() as int) == st.1
            &&& r.0.len() >= st.0.len()
            &&& r.0.subrange(0, st.0.len() as int) == st.0
            &&& forall|k: int| st.1.len() <= k < r.1.len() ==> reported(cs, root, show_hidden, #[trigger] r.1[k])
            &&& forall|k: int| st.0.len() <= k < r.0.len() ==> queued(cs, show_hidden, depth, #[trigger] r.0[k])
        }),
    decreases cs.len(),
{
    let r = visit_spec(st, cs, depth, root, show_hidden, limit);
    if cs.len() == 0 {
        assert(r.1.subrange(0, st.1.len() as int) =~= st.1);
        assert(r.0.subrange(0, st.0.len() as int) =~= st.0);
    } else {
        let init = cs.drop_last();
        lemma_walk_reports_admitted(st, init, depth, root, show_hidden, limit);
        let p = visit_spec(st, init, depth, root, show_hidden, limit);
        let c = cs.last();
        assert forall|j: int, d: (Seq<char>, Seq<char>)| #[trigger] reported_from(init, root, show_hidden, d, j) implies reported_from(cs, root, show_hidden, d, j) by {
            assert(init[j] == cs[j]);
        }
        assert forall|j: int, e: (String, usize)| #[trigger] queued_from(init, show_hidden, depth, e, j) implies queued_from(cs, show_hidden, depth, e, j) by {
            assert(init[j] == cs[j]);
        }
        assert(cs[cs.len() - 1] == c);
        assert(r.1.subrange(0, st.1.len() as int) =~= st.1) by {
            assert(p.1.subrange(0, st.1.len() as int) == st.1);
            assert forall|k: int| 0 <= k < st.1.len() implies r.1[k] == p.1[k] by {}
        }
        assert(r.0.subrange(0, st.0.len() as int) =~= st.0) by {
            assert(p.0.subrange(0, st.0.len() as int) == st.0);
            assert forall|k: int| 0 <= k < st.0.len() implies r.0[k] == p.0[k] by {}
        }
        assert forall|k: int| st.1.len() <= k < r.1.len() implies reported(cs, root, show_hidden, #[trigger] r.1[k]) by {
            if k < p.1.len() {
                assert(r.1[k] == p.1[k]);
                assert(reported(init, root, show_hidden, p.1[k]));
                let j = choose|j: int| reported_from(init, root, show_hidden, p.1[k], j);
                assert(reported_from(cs, root, show_hidden, r.1[k], j));
            } else {
                assert(reported_from(cs, root, show_hidden, r.1[k], cs.len() - 1));
            }
        }
        assert forall|k: int| st.0.len() <= k < r.0.len() implies queued(cs, show_hidden, depth, #[trigger] r.0[k]) by {
            if k < p.0.len() {
                assert(r.0[k] == p.0[k]);
                assert(queued(init, show_hidden, depth, p.0[k]));
                let j = choose|j: int| queued_from(init, show_hidden, depth, p.0[k], j);
                assert(queued_from(cs, show_hidden, depth, r.0[k], j));
            } else {
                assert(queued_from(cs, show_hidden, depth, r.0[k], cs.len() - 1));
            }
        }
    }
}

/// The bound a walk keeps: at most `limit` directories found (one when the
/// limit is 0), and it is truncated exactly when the limit is reached.
pub open spec fn within_limit(found_len: nat, truncated: bool, limit: usize) -> bool {
    &&& found_len <= if limit == 0 { 1 } else { limit as nat }
    &&& truncated <==> (found_len >= limit && found_len > 0)
}

/// Pops the next directory to read, dropping those too deep to read.
fn pop_next(stack: &mut Vec<(String, usize)>, max_depth: usize) -> (r: Option<(String, usize)>)
    ensures
        (final(stack)@, r) == next_spec(old(stack)@, max_depth),
        r matches Some(d) ==> d.1 < max_depth,
{
    loop
        invariant
            next_spec(stack@, max_depth) == next_spec(old(stack)@, max_depth),
        decreases stack@.len(),
    {
        let ghost before = stack@;
        match stack.pop() {
            None => {
                return None;
            },
            Some((dir, depth)) => {
                proof {
                    assert(before.drop_last() == stack@);
                }
                if depth < max_depth {
                    return Some((dir, depth));
                }
            },
        }
    }
}

/// A depth-first walk collecting the directories under a root.
pub struct Walk {
    root: String,
    show_hidden: bool,
    max_depth: usize,
    limit: usize,
    stack: Vec<(String, usize)>,
    found: Vec<FoundDir>,
    truncated: bool,
    depth: usize,
}

impl Walk {
    #[verifier::type_invariant]
    spec fn inv(self) -> bool {
        &&& within_limit(self.found@.len(), self.truncated, self.limit)
        &&& self.depth < self.max_depth || self.depth == 0
    }

    /// The state of the walk.
    pub closed spec fn state(self) -> WalkState {
        (self.stack@, self.found@.map_values(|d: FoundDir| found_view(d)), self.truncated)
    }

    /// The directories found so far, in the order they were found.
    pub closed spec fn found_dirs(self) -> Seq<FoundDir> {
        self.found@
    }

    /// The root the walk started from.
    pub closed spec fn root(self) -> Seq<char> {
        self.root@
    }

    pub closed spec fn show_hidden(self) -> bool {
        self.show_hidden
    }

    pub closed spec fn max_depth(self) -> usize {
        self.max_depth
    }

    pub closed spec fn limit(self) -> usize {
        self.limit
    }

    /// The depth of the directory last handed out by `next_dir`.
    pub closed spec fn depth(self) -> usize {
        self.depth
    }

    /// A walk of `root` that honours `show_hidden`, reads no directory at
    /// `max_depth` or deeper below the root, and stops once `limit`
    /// directories are found.
    pub fn new(root: &str, show_hidden: bool, max_depth: usize, limit: usize) -> (w: Walk)
        ensures
            w.state().0.len() == 1,
            w.state().0[0].0@ == root@,
            w.state().0[0].1 == 0,
            w.state().1.len() == 0,
            !w.state().2,
            w.root() == root@,
            w.show_hidden() == show_hidden,
            w.max_depth() == max_depth,
            w.limit() == limit,
    {
        let mut stack: Vec<(String, usize)> = Vec::new();
        stack.push((String::from_str(root), 0));
        Walk { root: String::from_str(root), show_hidden, max_depth, limit, stack, found: Vec::new(), truncated: false, depth: 0 }
    }

    /// The next directory to read, or `None` when the walk is over: the
    /// stack is empty or the limit was hit.
    pub fn next_dir(&mut self) -> (r: Option<String>)
        ensures
            final(self).root() == old(self).root(),
            final(self).show_hidden() == old(self).show_hidden(),
            final(self).max_depth() == old(self).max_depth(),
            final(self).limit() == old(self).limit(),
            final(self).found_dirs() == old(self).found_dirs(),
            final(self).state().1 == old(self).state().1,
            final(self).state().2 == old(self).state().2,
            old(self).state().2 ==> r is None && final(self).state() == old(self).state(),
            r is Some ==> final(self).depth() < final(self).max_depth(),
            !old(self).state().2 ==> {
                let (stack, next) = next_spec(old(self).state().0, old(self).max_depth());
                &&& final(self).state().0 == stack
                &&& match next {
                    Some(d) => r matches Some(dir) && dir == d.0 && final(self).depth() == d.1,
                    None => r is None,
                }
            },
    {
        proof {
            use_type_invariant(&*self);
        }
        if self.truncated {
            return None;
        }
        let mut stack: Vec<(String, usize)> = Vec::new();
        std::mem::swap(&mut stack, &mut self.stack);
        let next = pop_next(&mut stack, self.max_depth);
        self.stack = stack;
        match next {
            Some((dir, depth)) => {
                self.depth = depth;
                Some(dir)
            },
            None => None,
        }
    }

    /// Meets the children `children` of the directory last handed out by
    /// `next_dir`, in order; each one reported gets its path relative to
    /// the root.
    pub fn visit(&mut self, children: Vec<DirChild>)
        ensures
            final(self).root() == old(self).root(),
            final(self).show_hidden() == old(self).show_hidden(),
            final(self).max_depth() == old(self).max_depth(),
            final(self).limit() == old(self).limit(),
            final(self).depth() == old(self).depth(),
            final(self).state() == visit_spec(old(self).state(), children@, old(self).depth(), old(self).root(), old(self).show_hidden(), old(self).limit()),
    {
        proof {
            use_type_invariant(&*self);
        }
        let mut cur = Walk {
            root: String::new(),
            show_hidden: false,
            max_depth: 0,
            limit: 0,
            stack: Vec::new(),
            found: Vec::new(),
            truncated: false,
            depth: 0,
        };
        std::mem::swap(&mut cur, self);
        proof {
            use_type_invariant(&cur);
        }
        let Walk { root, show_hidden, max_depth, limit, mut stack, mut found, mut truncated, depth } = cur;
        let ghost start: WalkState = (old(self).stack@, old(self).found@.map_values(|d: FoundDir| found_view(d)), old(self).truncated);
        let mut i: usize = 0;
        while i < children.len()
            invariant
                i <= children@.len(),
                root@ == old(self).root@,
                show_hidden == old(self).show_hidden,
                max_depth == old(self).max_depth,
                limit == old(self).limit,
                depth == old(self).depth,
                depth < max_depth || depth == 0,
                within_limit(found@.len(), truncated, limit),
                (stack@, found@.map_values(|d: FoundDir| found_view(d)), truncated) == visit_spec(start, children@.take(i as int), depth, root@, show_hidden, limit),
            decreases children@.len() - i,
        {
            proof {
                assert(children@.take(i + 1).drop_last() =~= children@.take(i as int));
            }
            let c = &children[i];
            if !truncated {
                let hidden = is_hidden_name(c.name.as_str());
                let skipped = is_skipped_name(c.name.as_str());
                if !(hidden && !show_hidden) && !skipped && c.is_dir {
                    let rel = relative_to(c.path.as_str(), root.as_str());
                    let ghost before = found@;
                    found.push(FoundDir { path: c.path.clone(), rel });
                    proof {
                        assert(found@.map_values(|d: FoundDir| found_view(d)) =~= before.map_values(|d: FoundDir| found_view(d)).push((c.path@, rel_of(c.path@, root@))));
                    }
                    if found.len() >= limit {
                        truncated = true;
                    } else if !c.is_symlink {
                        stack.push((c.path.clone(), depth + 1));
                    }
                }
            }
            i = i + 1;
        }
        *self = Walk { root, show_hidden, max_depth, limit, stack, found, truncated, depth };
        assert(children@.take(children@.len() as int) =~= children@);
    }
}


/// The sort key of a found directory: its relative path compared
/// case-insensitively.
pub open spec fn found_key(d: FoundDir) -> Seq<u64> {
    char_keys(lowercase(d.rel@))
}

/// `r` is `ds` stably sorted by `found_key`, through the permutation `perm`.
pub open spec fn found_sorted_by_perm(ds: Seq<FoundDir>, perm: Seq<usize>, r: Seq<FoundDir>) -> bool {
    &&& permutes_range(perm, 0, ds.len() as int)
    &&& permuted(ds, perm, r)
    &&& forall|a: int, b: int| 0 <= a < b < perm.len() ==> crate::order::key_lt(found_key(ds[#[trigger] perm[a] as int]), found_key(ds[#[trigger] perm[b] as int]))
        || (found_key(ds[perm[a] as int]) == found_key(ds[perm[b] as int]) && perm[a] < perm[b])
}

/// `r` is the found directories `ds` in display order.
pub open spec fn sorted_found(ds: Seq<FoundDir>, r: Seq<FoundDir>) -> bool {
    exists|perm: Seq<usize>| #[trigger] found_sorted_by_perm(ds, perm, r)
}

/// Orders found directories by case-insensitive relative path; equal ones
/// keep their order.
pub fn sort_found(found: Vec<FoundDir>) -> (r: Vec<FoundDir>)
    ensures
        sorted_found(found@, r@),
        r@.len() == found@.len(),
{
    let mut keys: Vec<Vec<u64>> = Vec::new();
    let mut i: usize = 0;
    while i < found.len()
        invariant
            i <= found@.len(),
            keys@.len() == i,
            forall|k: int| 0 <= k < i ==> #[trigger] keys@[k]@ == found_key(found@[k]),
        decreases found@.len() - i,
    {
        let mut key: Vec<u64> = Vec::new();
        let lower = to_lowercase(found[i].rel.as_str());
        push_char_keys(&mut key, lower.as_str());
        assert(key@ =~= found_key(found@[i as int]));
        keys.push(key);
        i = i + 1;
    }
    let perm = sort_indices(&keys);
    let mut r: Vec<FoundDir> = Vec::new();
    let mut k: usize = 0;
    while k < perm.len()
        invariant
            k <= perm@.len(),
            keys@.len() == found@.len(),
            permutes_range(perm@, 0, keys@.len() as int),
            r@.len() == k,
            forall|m: int| 0 <= m < k ==> r@[m] == found@[#[trigger] perm@[m] as int],
        decreases perm@.len() - k,
    {
        let d = &found[perm[k]];
        r.push(FoundDir { path: d.path.clone(), rel: d.rel.clone() });
        k = k + 1;
    }
    proof {
        assert forall|a: int, b: int| 0 <= a < b < perm@.len() implies crate::order::key_lt(found_key(found@[#[trigger] perm@[a] as int]), found_key(found@[#[trigger] perm@[b] as int]))
            || (found_key(found@[perm@[a] as int]) == found_key(found@[perm@[b] as int]) && perm@[a] < perm@[b]) by {
            assert(ordered_before(keys@, perm@[a] as int, perm@[b] as int));
        }
        assert(found_sorted_by_perm(found@, perm@, r@));
    }
    r
}

impl Walk {
    /// Ends the walk: the directories found, sorted by case-insensitive
    /// relative path, and whether the limit cut the walk short.
    pub fn finish(self) -> (r: (Vec<FoundDir>, bool))
        ensures
            self.state().1 == self.found_dirs().map_values(|d: FoundDir| found_view(d)),
            sorted_found(self.found_dirs(), r.0@),
            r.1 == self.state().2,
            within_limit(r.0@.len(), r.1, self.limit()),
    {
        proof {
            use_type_invariant(&self);
        }
        let Walk { root, show_hidden, max_depth, limit, stack, found, truncated, depth } = self;
        (sort_found(found), truncated)
    }
}

/// One directory read during a walk: its path, its depth below the root,
/// and the children met in it.
pub type ReadDir = (Seq<char>, usize, Seq<DirChild>);

/// A walk from `st` in which the directories handed out by `next_dir` have
/// the children `lists`, in order: each step takes the next directory as
/// `next_dir` does and meets its children as `visit` does; once nothing is
/// left to read or the limit is hit, the remaining lists are never asked
/// for. The result is the final state and the directories read.
pub open spec fn run_spec(st: WalkState, lists: Seq<Seq<DirChild>>, root: Seq<char>, show_hidden: bool, max_depth: usize, limit: usize) -> (WalkState, Seq<ReadDir>)
    decreases lists.len(),
{
    if lists.len() == 0 {
        (st, Seq::empty())
    } else {
        let (pre, log) = run_spec(st, lists.drop_last(), root, show_hidden, max_depth, limit);
        if pre.2 {
            (pre, log)
        } else {
            let (stack, next) = next_spec(pre.0, max_depth);
            match next {
                None => ((stack, pre.1, pre.2), log),
                Some(d) => (
                    visit_spec((stack, pre.1, pre.2), lists.last(), d.1, root, show_hidden, limit),
                    log.push((d.0@, d.1, lists.last())),
                ),
            }
        }
    }
}

/// The directory in whose listing the `i`-th link of `ch` stands: the root
/// for the first link, the previous link otherwise.
pub open spec fn link_parent(root: Seq<char>, ch: Seq<DirChild>, i: int) -> Seq<char> {
    if i == 0 { root } else { ch[i - 1].path@ }
}

/// The `i`-th link of `ch` is admitted by the walk and is one of the
/// children read, at depth `i`, for its parent.
pub open spec fn linked_at(log: Seq<ReadDir>, root: Seq<char>, ch: Seq<DirChild>, show_hidden: bool, i: int) -> bool {
    &&& admitted(ch[i], show_hidden)
    &&& exists|j: int, k: int| 0 <= j < log.len() && 0 <= k < log[j].2.len()
        && log[j].0 == link_parent(root, ch, i) && log[j].1 == i && #[trigger] log[j].2[k] == ch[i]
}

/// `ch` leads down from the root through the directories read: every link
/// is admitted (a directory, not skipped, not hidden unless shown) and read
/// from its parent, and no link before the last is a symlink.
pub open spec fn chain_from(log: Seq<ReadDir>, root: Seq<char>, ch: Seq<DirChild>, show_hidden: bool) -> bool {
    &&& forall|i: int| 0 <= i < ch.len() ==> #[trigger] linked_at(log, root, ch, show_hidden, i)
    &&& forall|i: int| 0 <= i < ch.len() - 1 ==> !(#[trigger] ch[i]).is_symlink
}

/// The found directory `f` is the end of the chain `ch`, between one and
/// `max_depth` levels below the root.
pub open spec fn found_through(log: Seq<ReadDir>, root: Seq<char>, show_hidden: bool, max_depth: usize, f: (Seq<char>, Seq<char>), ch: Seq<DirChild>) -> bool {
    &&& chain_from(log, root, ch, show_hidden)
    &&& 1 <= ch.len() <= max_depth
    &&& f == (ch.last().path@, rel_of(ch.last().path@, root))
}

/// The stack entry `e` is the root at depth 0, or the end of the chain
/// `ch` of length `e.1`, which is not a symlink.
pub open spec fn queued_through(log: Seq<ReadDir>, root: Seq<char>, show_hidden: bool, e: (String, usize), ch: Seq<DirChild>) -> bool {
    &&& chain_from(log, root, ch, show_hidden)
    &&& ch.len() == e.1
    &&& ch.len() == 0 ==> e.0@ == root
    &&& ch.len() > 0 ==> e.0 == ch.last().path && !ch.last().is_symlink
}

/// The found directory `f` is reached from the root through the
/// directories read.
pub open spec fn found_reached(log: Seq<ReadDir>, root: Seq<char>, show_hidden: bool, max_depth: usize, f: (Seq<char>, Seq<char>)) -> bool {
    exists|ch: Seq<DirChild>| found_through(log, root, show_hidden, max_depth, f, ch)
}

/// The stack entry `e` is reached from the root through the directories
/// read.
pub open spec fn queue_reached(log: Seq<ReadDir>, root: Seq<char>, show_hidden: bool, e: (String, usize)) -> bool {
    exists|ch: Seq<DirChild>| queued_through(log, root, show_hidden, e, ch)
}

/// Every found directory and every directory still to read is reached from
/// the root through the directories read.
pub open spec fn walk_reached(st: WalkState, log: Seq<ReadDir>, root: Seq<char>, show_hidden: bool, max_depth: usize) -> bool {
    &&& forall|k: int| 0 <= k < st.1.len() ==> found_reached(log, root, show_hidden, max_depth, #[trigger] st.1[k])
    &&& forall|k: int| 0 <= k < st.0.len() ==> queue_reached(log, root, show_hidden, #[trigger] st.0[k])
}

proof fn lemma_next_spec_prefix(stack: Seq<(String, usize)>, max_depth: usize)
    ensures
        ({
            let (rest, next) = next_spec(stack, max_depth);
            &&& rest.len() <= stack.len()
            &&& forall|k: int| 0 <= k < rest.len() ==> #[trigger] rest[k] == stack[k]
            &&& next matches Some(d) ==> rest.len() < stack.len() && d == stack[rest.len() as int] && d.1 < max_depth
            &&& next is None ==> rest.len() == 0
            &&& forall|k: int| rest.len() + (if next is Some { 1int } else { 0int }) <= k < stack.len() ==> (#[trigger] stack[k]).1 >= max_depth
        }),
    decreases stack.len(),
{
    if stack.len() > 0 && stack.last().1 >= max_depth {
        lemma_next_spec_prefix(stack.drop_last(), max_depth);
        let (rest, next) = next_spec(stack, max_depth);
        assert forall|k: int| rest.len() + (if next is Some { 1int } else { 0int }) <= k < stack.len() implies (#[trigger] stack[k]).1 >= max_depth by {
            if k < stack.len() - 1 {
                assert(stack.drop_last()[k] == stack[k]);
            }
        }
    }
}

proof fn lemma_chain_log_grows(log: Seq<ReadDir>, x: ReadDir, root: Seq<char>, ch: Seq<DirChild>, show_hidden: bool)
    requires
        chain_from(log, root, ch, show_hidden),
    ensures
        chain_from(log.push(x), root, ch, show_hidden),
{
    assert forall|i: int| 0 <= i < ch.len() implies #[trigger] linked_at(log.push(x), root, ch, show_hidden, i) by {
        assert(linked_at(log, root, ch, show_hidden, i));
        let (j, k) = choose|j: int, k: int| 0 <= j < log.len() && 0 <= k < log[j].2.len()
            && log[j].0 == link_parent(root, ch, i) && log[j].1 == i && #[trigger] log[j].2[k] == ch[i];
        assert(log.push(x)[j] == log[j]);
    }
}

/// A chain to a directory read at depth `ch.len()`, extended by one of the
/// children met there, is a chain to that child.
proof fn lemma_chain_extends(log: Seq<ReadDir>, x: ReadDir, root: Seq<char>, ch: Seq<DirChild>, show_hidden: bool, j: int)
    requires
        chain_from(log, root, ch, show_hidden),
        ch.len() > 0 ==> !ch.last().is_symlink,
        x.0 == link_parent(root, ch.push(x.2[j]), ch.len() as int),
        x.1 == ch.len(),
        0 <= j < x.2.len(),
        admitted(x.2[j], show_hidden),
    ensures
        chain_from(log.push(x), root, ch.push(x.2[j]), show_hidden),
{
    let log2 = log.push(x);
    let ch2 = ch.push(x.2[j]);
    lemma_chain_log_grows(log, x, root, ch, show_hidden);
    assert forall|i: int| 0 <= i < ch2.len() implies #[trigger] linked_at(log2, root, ch2, show_hidden, i) by {
        if i < ch.len() {
            assert(linked_at(log2, root, ch, show_hidden, i));
            assert(ch2[i] == ch[i]);
            assert(link_parent(root, ch2, i) == link_parent(root, ch, i));
            let (a, b) = choose|a: int, b: int| 0 <= a < log2.len() && 0 <= b < log2[a].2.len()
                && log2[a].0 == link_parent(root, ch, i) && log2[a].1 == i && #[trigger] log2[a].2[b] == ch[i];
            assert(log2[a].2[b] == ch2[i]);
        } else {
            assert(log2[log.len() as int] == x);
            assert(log2[log.len() as int].2[j] == ch2[i]);
        }
    }
    assert forall|i: int| 0 <= i < ch2.len() - 1 implies !(#[trigger] ch2[i]).is_symlink by {
        assert(ch2[i] == ch[i]);
        if i < ch.len() - 1 {
            assert(!ch[i].is_symlink);
        }
    }
}

/// The reach of a walk holds from its first state to its last.
proof fn lemma_run_reached(st: WalkState, root: Seq<char>, lists: Seq<Seq<DirChild>>, show_hidden: bool, max_depth: usize, limit: usize)
    requires
        st.0.len() == 1,
        st.0[0].0@ == root,
        st.0[0].1 == 0,
        st.1.len() == 0,
    ensures
        ({
            let (fin, log) = run_spec(st, lists, root, show_hidden, max_depth, limit);
            walk_reached(fin, log, root, show_hidden, max_depth)
        }),
    decreases lists.len(),
{
    if lists.len() == 0 {
        assert(queued_through(Seq::empty(), root, show_hidden, st.0[0], Seq::empty()));
        assert(queue_reached(Seq::empty(), root, show_hidden, st.0[0]));
    } else {
        lemma_run_reached(st, root, lists.drop_last(), show_hidden, max_depth, limit);
        let (pre, log) = run_spec(st, lists.drop_last(), root, show_hidden, max_depth, limit);
        if !pre.2 {
            let (stack, next) = next_spec(pre.0, max_depth);
            lemma_next_spec_prefix(pre.0, max_depth);
            let st1: WalkState = (stack, pre.1, pre.2);
            match next {
                None => {
                    assert forall|k: int| 0 <= k < stack.len() implies queue_reached(log, root, show_hidden, #[trigger] stack[k]) by {
                        assert(stack[k] == pre.0[k]);
                    }
                    assert(walk_reached(st1, log, root, show_hidden, max_depth));
                },
                Some(d) => {
                    let cs = lists.last();
                    let x: ReadDir = (d.0@, d.1, cs);
                    let log2 = log.push(x);
                    let r = visit_spec(st1, cs, d.1, root, show_hidden, limit);
                    assert(d == pre.0[stack.len() as int]);
                    assert(queue_reached(log, root, show_hidden, pre.0[stack.len() as int]));
                    let chd = choose|ch: Seq<DirChild>| queued_through(log, root, show_hidden, pre.0[stack.len() as int], ch);
                    lemma_walk_reports_admitted(st1, cs, d.1, root, show_hidden, limit);
                    assert forall|k: int| 0 <= k < r.1.len() implies found_reached(log2, root, show_hidden, max_depth, #[trigger] r.1[k]) by {
                        if k < pre.1.len() {
                            assert(r.1[k] == r.1.subrange(0, pre.1.len() as int)[k]);
                            assert(found_reached(log, root, show_hidden, max_depth, pre.1[k]));
                            let ch = choose|ch: Seq<DirChild>| found_through(log, root, show_hidden, max_depth, pre.1[k], ch);
                            lemma_chain_log_grows(log, x, root, ch, show_hidden);
                            assert(found_through(log2, root, show_hidden, max_depth, r.1[k], ch));
                        } else {
                            assert(reported(cs, root, show_hidden, r.1[k]));
                            let j = choose|j: int| reported_from(cs, root, show_hidden, r.1[k], j);
                            lemma_chain_extends(log, x, root, chd, show_hidden, j);
                            assert(found_through(log2, root, show_hidden, max_depth, r.1[k], chd.push(cs[j])));
                        }
                    }
                    assert forall|k: int| 0 <= k < r.0.len() implies queue_reached(log2, root, show_hidden, #[trigger] r.0[k]) by {
                        if k < stack.len() {
                            assert(r.0[k] == r.0.subrange(0, stack.len() as int)[k]);
                            assert(stack[k] == pre.0[k]);
                            assert(queue_reached(log, root, show_hidden, pre.0[k]));
                            let ch = choose|ch: Seq<DirChild>| queued_through(log, root, show_hidden, pre.0[k], ch);
                            lemma_chain_log_grows(log, x, root, ch, show_hidden);
                            assert(queued_through(log2, root, show_hidden, r.0[k], ch));
                        } else {
                            assert(queued(cs, show_hidden, d.1, r.0[k]));
                            let j = choose|j: int| queued_from(cs, show_hidden, d.1, r.0[k], j);
                            lemma_chain_extends(log, x, root, chd, show_hidden, j);
                            assert(queued_through(log2, root, show_hidden, r.0[k], chd.push(cs[j])));
                        }
                    }
                    assert(walk_reached(r, log2, root, show_hidden, max_depth));
                },
            }
        }
    }
}

/// What a whole walk reports: started by `Walk::new` at `root` and run by
/// `next_dir` and `visit` with any listings, every directory it finds is
/// reached from the root by a chain of one to `max_depth` children, each of
/// them a directory that is neither skipped nor hidden (unless hidden ones
/// are shown) and is one of the children read for the previous one (the
/// first for the root), and no link before the found directory itself is a
/// symlink, so symlinked trees are never entered. The walk stops with at
/// most `limit` directories (one when the limit is 0).
pub proof fn lemma_walk_reaches_from_root(st: WalkState, root: Seq<char>, lists: Seq<Seq<DirChild>>, show_hidden: bool, max_depth: usize, limit: usize)
    requires
        st.0.len() == 1,
        st.0[0].0@ == root,
        st.0[0].1 == 0,
        st.1.len() == 0,
        !st.2,
    ensures
        ({
            let (fin, log) = run_spec(st, lists, root, show_hidden, max_depth, limit);
            &&& forall|k: int| 0 <= k < fin.1.len() ==> found_reached(log, root, show_hidden, max_depth, #[trigger] fin.1[k])
            &&& forall|k: int| 0 <= k < log.len() ==> #[trigger] log[k].1 < max_depth
        }),
{
    lemma_run_reached(st, root, lists, show_hidden, max_depth, limit);
    lemma_run_log_depths(st, lists, root, show_hidden, max_depth, limit);
}

proof fn lemma_run_log_depths(st: WalkState, lists: Seq<Seq<DirChild>>, root: Seq<char>, show_hidden: bool, max_depth: usize, limit: usize)
    ensures
        ({
            let log = run_spec(st, lists, root, show_hidden, max_depth, limit).1;
            forall|k: int| 0 <= k < log.len() ==> #[trigger] log[k].1 < max_depth
        }),
    decreases lists.len(),
{
    if lists.len() > 0 {
        lemma_run_log_depths(st, lists.drop_last(), root, show_hidden, max_depth, limit);
        let pre = run_spec(st, lists.drop_last(), root, show_hidden, max_depth, limit).0;
        lemma_next_spec_prefix(pre.0, max_depth);
    }
}

/// The directory `path` was read at depth `depth`.
pub open spec fn read_at(log: Seq<ReadDir>, path: Seq<char>, depth: int) -> bool {
    exists|m: int| 0 <= m < log.len() && #[trigger] log[m].0 == path && log[m].1 == depth
}

/// The directory `path` at depth `depth` is still on the stack or was read.
pub open spec fn pending_or_read(stack: Seq<(String, usize)>, log: Seq<ReadDir>, path: Seq<char>, depth: int) -> bool {
    ||| exists|i: int| 0 <= i < stack.len() && (#[trigger] stack[i]).0@ == path && stack[i].1 == depth
    ||| read_at(log, path, depth)
}

/// What an untruncated walk owes: the root is on the stack or read (when
/// anything may be read), every admitted child of a directory read is
/// found, and every admitted child that is not a symlink, shallow enough to
/// be read, is on the stack or read.
pub open spec fn walk_closed(st: WalkState, log: Seq<ReadDir>, root: Seq<char>, show_hidden: bool, max_depth: usize) -> bool {
    !st.2 ==> {
        &&& max_depth > 0 ==> pending_or_read(st.0, log, root, 0)
        &&& forall|j: int, k: int| 0 <= j < log.len() && 0 <= k < log[j].2.len() && admitted(#[trigger] log[j].2[k], show_hidden)
            ==> st.1.contains((log[j].2[k].path@, rel_of(log[j].2[k].path@, root)))
        &&& forall|j: int, k: int| 0 <= j < log.len() && 0 <= k < log[j].2.len() && admitted(#[trigger] log[j].2[k], show_hidden)
            && !log[j].2[k].is_symlink && log[j].1 + 1 < max_depth
            ==> pending_or_read(st.0, log, log[j].2[k].path@, log[j].1 + 1)
    }
}

/// Meeting children without hitting the limit reports every admitted
/// child and queues every admitted child that is not a symlink.
proof fn lemma_visit_complete(st: WalkState, cs: Seq<DirChild>, depth: usize, root: Seq<char>, show_hidden: bool, limit: usize)
    ensures
        ({
            let r = visit_spec(st, cs, depth, root, show_hidden, limit);
            !r.2 ==> {
                &&& !st.2
                &&& forall|j: int| 0 <= j < cs.len() && admitted(#[trigger] cs[j], show_hidden) ==> r.1.contains((cs[j].path@, rel_of(cs[j].path@, root)))
                &&& forall|j: int| 0 <= j < cs.len() && admitted(#[trigger] cs[j], show_hidden) && !cs[j].is_symlink
                    ==> exists|i: int| 0 <= i < r.0.len() && #[trigger] r.0[i] == (cs[j].path, (depth + 1) as usize)
            }
        }),
    decreases cs.len(),
{
    if cs.len() > 0 {
        let init = cs.drop_last();
        lemma_visit_complete(st, init, depth, root, show_hidden, limit);
        let p = visit_spec(st, init, depth, root, show_hidden, limit);
        let r = visit_spec(st, cs, depth, root, show_hidden, limit);
        let c = cs.last();
        if !r.2 {
            assert(!p.2);
            assert forall|j: int| 0 <= j < cs.len() && admitted(#[trigger] cs[j], show_hidden) implies r.1.contains((cs[j].path@, rel_of(cs[j].path@, root))) by {
                if j < cs.len() - 1 {
                    assert(init[j] == cs[j]);
                    assert(p.1.contains((init[j].path@, rel_of(init[j].path@, root))));
                    let m = choose|m: int| 0 <= m < p.1.len() && p.1[m] == (init[j].path@, rel_of(init[j].path@, root));
                    assert(r.1[m] == p.1[m]);
                } else {
                    assert(r.1[r.1.len() - 1] == (c.path@, rel_of(c.path@, root)));
                }
            }
            assert forall|j: int| 0 <= j < cs.len() && admitted(#[trigger] cs[j], show_hidden) && !cs[j].is_symlink
                implies exists|i: int| 0 <= i < r.0.len() && #[trigger] r.0[i] == (cs[j].path, (depth + 1) as usize) by {
                if j < cs.len() - 1 {
                    assert(init[j] == cs[j]);
                    assert(admitted(init[j], show_hidden));
                    let i = choose|i: int| 0 <= i < p.0.len() && #[trigger] p.0[i] == (init[j].path, (depth + 1) as usize);
                    assert(r.0[i] == p.0[i]);
                } else {
                    assert(r.0[r.0.len() - 1] == (c.path, (depth + 1) as usize));
                }
            }
        }
    }
}

/// Taking the next directory and meeting its children keeps every
/// shallow entry pending or read.
proof fn lemma_pending_kept(stack: Seq<(String, usize)>, log: Seq<ReadDir>, newstack: Seq<(String, usize)>, x: ReadDir,
    max_depth: usize, path: Seq<char>, depth: int)
    requires
        pending_or_read(stack, log, path, depth),
        depth < max_depth,
        ({
            let (rest, next) = next_spec(stack, max_depth);
            &&& newstack.len() >= rest.len()
            &&& forall|k: int| 0 <= k < rest.len() ==> #[trigger] newstack[k] == rest[k]
            &&& next matches Some(d) ==> x.0 == d.0@ && x.1 == d.1
        }),
    ensures
        ({
            let next = next_spec(stack, max_depth).1;
            pending_or_read(newstack, if next is Some { log.push(x) } else { log }, path, depth)
        }),
{
    lemma_next_spec_prefix(stack, max_depth);
    let (rest, next) = next_spec(stack, max_depth);
    let log2 = if next is Some { log.push(x) } else { log };
    if exists|i: int| 0 <= i < stack.len() && (#[trigger] stack[i]).0@ == path && stack[i].1 == depth {
        let i = choose|i: int| 0 <= i < stack.len() && (#[trigger] stack[i]).0@ == path && stack[i].1 == depth;
        if i < rest.len() {
            assert(newstack[i] == rest[i]);
        } else if next is Some && i == rest.len() {
            assert(log2[log.len() as int] == x);
        } else {
            assert(stack[i].1 >= max_depth);
        }
    } else {
        let m = choose|m: int| 0 <= m < log.len() && #[trigger] log[m].0 == path && log[m].1 == depth;
        assert(log2[m] == log[m]);
    }
}

/// An untruncated walk stays closed from its first state to its last.
proof fn lemma_run_closed(st: WalkState, root: Seq<char>, lists: Seq<Seq<DirChild>>, show_hidden: bool, max_depth: usize, limit: usize)
    requires
        st.0.len() == 1,
        st.0[0].0@ == root,
        st.0[0].1 == 0,
        !st.2,
    ensures
        ({
            let (fin, log) = run_spec(st, lists, root, show_hidden, max_depth, limit);
            walk_closed(fin, log, root, show_hidden, max_depth)
        }),
    decreases lists.len(),
{
    if lists.len() == 0 {
        assert(st.0[0].0@ == root && st.0[0].1 == 0);
    } else {
        lemma_run_closed(st, root, lists.drop_last(), show_hidden, max_depth, limit);
        let (pre, log) = run_spec(st, lists.drop_last(), root, show_hidden, max_depth, limit);
        if !pre.2 {
            lemma_next_spec_prefix(pre.0, max_depth);
            let (rest, next) = next_spec(pre.0, max_depth);
            let st1: WalkState = (rest, pre.1, pre.2);
            let cs = lists.last();
            let x: ReadDir = match next {
                Some(d) => (d.0@, d.1, cs),
                None => (Seq::empty(), 0, cs),
            };
            let log2 = if next is Some { log.push(x) } else { log };
            let fin = run_spec(st, lists, root, show_hidden, max_depth, limit).0;
            if !fin.2 {
                let d1: usize = match next { Some(d) => d.1, None => 0 };
                if next is Some {
                    lemma_walk_reports_admitted(st1, cs, d1, root, show_hidden, limit);
                    lemma_visit_complete(st1, cs, d1, root, show_hidden, limit);
                    assert(fin == visit_spec(st1, cs, d1, root, show_hidden, limit));
                    assert forall|k: int| 0 <= k < rest.len() implies #[trigger] fin.0[k] == rest[k] by {
                        assert(fin.0.subrange(0, rest.len() as int)[k] == rest[k]);
                    }
                } else {
                    assert(fin == st1);
                }
                assert(log2 == run_spec(st, lists, root, show_hidden, max_depth, limit).1);
                if max_depth > 0 {
                    lemma_pending_kept(pre.0, log, fin.0, x, max_depth, root, 0);
                }
                assert forall|j: int, k: int| 0 <= j < log2.len() && 0 <= k < log2[j].2.len() && admitted(#[trigger] log2[j].2[k], show_hidden)
                    implies fin.1.contains((log2[j].2[k].path@, rel_of(log2[j].2[k].path@, root))) by {
                    let c = log2[j].2[k];
                    if j < log.len() {
                        assert(log2[j] == log[j]);
                        assert(pre.1.contains((c.path@, rel_of(c.path@, root))));
                        let m = choose|m: int| 0 <= m < pre.1.len() && pre.1[m] == (c.path@, rel_of(c.path@, root));
                        assert(fin.1.subrange(0, pre.1.len() as int)[m] == pre.1[m]);
                        assert(fin.1[m] == pre.1[m]);
                    } else {
                        assert(cs[k] == c);
                    }
                }
                assert forall|j: int, k: int| 0 <= j < log2.len() && 0 <= k < log2[j].2.len() && admitted(#[trigger] log2[j].2[k], show_hidden)
                    && !log2[j].2[k].is_symlink && log2[j].1 + 1 < max_depth
                    implies pending_or_read(fin.0, log2, log2[j].2[k].path@, log2[j].1 + 1) by {
                    let c = log2[j].2[k];
                    if j < log.len() {
                        assert(log2[j] == log[j]);
                        lemma_pending_kept(pre.0, log, fin.0, x, max_depth, c.path@, log[j].1 + 1);
                    } else {
                        assert(cs[k] == c);
                        let i = choose|i: int| 0 <= i < fin.0.len() && #[trigger] fin.0[i] == (cs[k].path, (d1 + 1) as usize);
                        assert(fin.0[i].0@ == c.path@ && fin.0[i].1 == log2[j].1 + 1);
                    }
                }
            }
        }
    }
}

/// A walk that is over (the next `next_dir` gives `None`) without hitting
/// the limit has missed nothing: the root was read (unless `max_depth` is
/// 0), every admitted child of a directory read was found, and every
/// admitted child that is not a symlink and lies less than `max_depth`
/// below the root was read itself. With `lemma_walk_reaches_from_root`,
/// the walk finds exactly the admitted directories reachable from the root
/// through non-symlink directories within `max_depth`.
pub proof fn lemma_walk_complete(st: WalkState, root: Seq<char>, lists: Seq<Seq<DirChild>>, show_hidden: bool, max_depth: usize, limit: usize)
    requires
        st.0.len() == 1,
        st.0[0].0@ == root,
        st.0[0].1 == 0,
        st.1.len() == 0,
        !st.2,
    ensures
        ({
            let (fin, log) = run_spec(st, lists, root, show_hidden, max_depth, limit);
            !fin.2 && next_spec(fin.0, max_depth).1 is None ==> {
                &&& max_depth > 0 ==> read_at(log, root, 0)
                &&& forall|j: int, k: int| 0 <= j < log.len() && 0 <= k < log[j].2.len() && admitted(#[trigger] log[j].2[k], show_hidden)
                    ==> fin.1.contains((log[j].2[k].path@, rel_of(log[j].2[k].path@, root)))
                &&& forall|j: int, k: int| 0 <= j < log.len() && 0 <= k < log[j].2.len() && admitted(#[trigger] log[j].2[k], show_hidden)
                    && !log[j].2[k].is_symlink && log[j].1 + 1 < max_depth
                    ==> read_at(log, log[j].2[k].path@, log[j].1 + 1)
            }
        }),
{
    lemma_run_closed(st, root, lists, show_hidden, max_depth, limit);
    let (fin, log) = run_spec(st, lists, root, show_hidden, max_depth, limit);
    if !fin.2 && next_spec(fin.0, max_depth).1 is None {
        lemma_next_spec_prefix(fin.0, max_depth);
        assert forall|path: Seq<char>, depth: int| depth < max_depth && #[trigger] pending_or_read(fin.0, log, path, depth) implies read_at(log, path, depth) by {
            if exists|i: int| 0 <= i < fin.0.len() && (#[trigger] fin.0[i]).0@ == path && fin.0[i].1 == depth {
                let i = choose|i: int| 0 <= i < fin.0.len() && (#[trigger] fin.0[i]).0@ == path && fin.0[i].1 == depth;
                assert(fin.0[i].1 >= max_depth);
            }
        }
    }
}

/// No two children in the listings `lists` share a path.
pub open spec fn child_paths_distinct(lists: Seq<Seq<DirChild>>) -> bool {
    forall|i1: int, k1: int, i2: int, k2: int|
        0 <= i1 < lists.len() && 0 <= k1 < lists[i1].len() && 0 <= i2 < lists.len() && 0 <= k2 < lists[i2].len()
        && (i1 != i2 || k1 != k2) ==> (#[trigger] lists[i1][k1]).path@ != (#[trigger] lists[i2][k2]).path@
}

/// `path` is the path of one of the children in `lists`, in a list before
/// the `n`-th.
pub open spec fn listed_before(lists: Seq<Seq<DirChild>>, n: int, path: Seq<char>) -> bool {
    exists|i: int, k: int| 0 <= i < n && 0 <= k < lists[i].len() && (#[trigger] lists[i][k]).path@ == path
}

/// The found paths `found` from index `from` on are pairwise distinct.
pub open spec fn distinct_paths_from(found: Seq<(Seq<char>, Seq<char>)>, from: int) -> bool {
    forall|a: int, b: int| from <= a < b < found.len() ==> (#[trigger] found[a]).0 != (#[trigger] found[b]).0
}

/// Meeting children with distinct paths reports distinct paths.
proof fn lemma_visit_distinct(st: WalkState, cs: Seq<DirChild>, depth: usize, root: Seq<char>, show_hidden: bool, limit: usize)
    requires
        forall|a: int, b: int| 0 <= a < b < cs.len() ==> (#[trigger] cs[a]).path@ != (#[trigger] cs[b]).path@,
    ensures
        distinct_paths_from(visit_spec(st, cs, depth, root, show_hidden, limit).1, st.1.len() as int),
    decreases cs.len(),
{
    if cs.len() > 0 {
        let init = cs.drop_last();
        assert forall|a: int, b: int| 0 <= a < b < init.len() implies (#[trigger] init[a]).path@ != (#[trigger] init[b]).path@ by {
            assert(init[a] == cs[a] && init[b] == cs[b]);
        }
        lemma_visit_distinct(st, init, depth, root, show_hidden, limit);
        lemma_walk_reports_admitted(st, init, depth, root, show_hidden, limit);
        let p = visit_spec(st, init, depth, root, show_hidden, limit);
        let r = visit_spec(st, cs, depth, root, show_hidden, limit);
        assert forall|a: int, b: int| st.1.len() <= a < b < r.1.len() implies (#[trigger] r.1[a]).0 != (#[trigger] r.1[b]).0 by {
            if b < p.1.len() {
                assert(r.1[a] == p.1[a] && r.1[b] == p.1[b]);
            } else {
                assert(r.1[a] == p.1[a]);
                assert(reported(init, root, show_hidden, p.1[a]));
                let j = choose|j: int| reported_from(init, root, show_hidden, p.1[a], j);
                assert(init[j] == cs[j]);
                assert(r.1[b].0 == cs[cs.len() - 1].path@);
            }
        }
    }
}

/// Every path found in a walk is the path of a child in the listings read,
/// and no two found paths are equal.
proof fn lemma_run_distinct(st: WalkState, root: Seq<char>, lists: Seq<Seq<DirChild>>, show_hidden: bool, max_depth: usize, limit: usize)
    requires
        st.1.len() == 0,
        child_paths_distinct(lists),
    ensures
        ({
            let fin = run_spec(st, lists, root, show_hidden, max_depth, limit).0;
            &&& forall|m: int| 0 <= m < fin.1.len() ==> listed_before(lists, lists.len() as int, (#[trigger] fin.1[m]).0)
            &&& distinct_paths_from(fin.1, 0)
        }),
    decreases lists.len(),
{
    if lists.len() > 0 {
        let init = lists.drop_last();
        let n = init.len() as int;
        assert forall|i1: int, k1: int, i2: int, k2: int|
            0 <= i1 < init.len() && 0 <= k1 < init[i1].len() && 0 <= i2 < init.len() && 0 <= k2 < init[i2].len()
            && (i1 != i2 || k1 != k2) implies (#[trigger] init[i1][k1]).path@ != (#[trigger] init[i2][k2]).path@ by {
            assert(init[i1] == lists[i1] && init[i2] == lists[i2]);
            assert(lists[i1][k1].path@ != lists[i2][k2].path@);
        }
        lemma_run_distinct(st, root, init, show_hidden, max_depth, limit);
        let pre = run_spec(st, init, root, show_hidden, max_depth, limit).0;
        let fin = run_spec(st, lists, root, show_hidden, max_depth, limit).0;
        assert forall|m: int| 0 <= m < pre.1.len() implies listed_before(lists, lists.len() as int, (#[trigger] pre.1[m]).0) by {
            assert(listed_before(init, n, pre.1[m].0));
            let (i, k) = choose|i: int, k: int| 0 <= i < n && 0 <= k < init[i].len() && (#[trigger] init[i][k]).path@ == pre.1[m].0;
            assert(init[i] == lists[i]);
            assert(lists[i][k].path@ == pre.1[m].0);
        }
        if !pre.2 {
            let (rest, next) = next_spec(pre.0, max_depth);
            if let Some(d) = next {
                let cs = lists.last();
                let st1: WalkState = (rest, pre.1, pre.2);
                assert(cs == lists[n]);
                assert forall|a: int, b: int| 0 <= a < b < cs.len() implies (#[trigger] cs[a]).path@ != (#[trigger] cs[b]).path@ by {
                    assert(lists[n][a].path@ != lists[n][b].path@);
                }
                lemma_visit_distinct(st1, cs, d.1, root, show_hidden, limit);
                lemma_walk_reports_admitted(st1, cs, d.1, root, show_hidden, limit);
                assert(fin == visit_spec(st1, cs, d.1, root, show_hidden, limit));
                assert forall|m: int| 0 <= m < fin.1.len() implies listed_before(lists, lists.len() as int, (#[trigger] fin.1[m]).0) by {
                    if m < pre.1.len() {
                        assert(fin.1[m] == fin.1.subrange(0, pre.1.len() as int)[m]);
                        assert(listed_before(lists, lists.len() as int, pre.1[m].0));
                    } else {
                        assert(reported(cs, root, show_hidden, fin.1[m]));
                        let j = choose|j: int| reported_from(cs, root, show_hidden, fin.1[m], j);
                        assert(lists[n][j].path@ == fin.1[m].0);
                    }
                }
                assert forall|a: int, b: int| 0 <= a < b < fin.1.len() implies (#[trigger] fin.1[a]).0 != (#[trigger] fin.1[b]).0 by {
                    if b < pre.1.len() {
                        assert(fin.1[a] == fin.1.subrange(0, pre.1.len() as int)[a]);
                        assert(fin.1[b] == fin.1.subrange(0, pre.1.len() as int)[b]);
                        assert(pre.1[a].0 != pre.1[b].0);
                    } else if a >= pre.1.len() {
                    } else {
                        assert(fin.1[a] == fin.1.subrange(0, pre.1.len() as int)[a]);
                        assert(listed_before(init, n, pre.1[a].0));
                        let (i, k) = choose|i: int, k: int| 0 <= i < n && 0 <= k < init[i].len() && (#[trigger] init[i][k]).path@ == pre.1[a].0;
                        assert(init[i] == lists[i]);
                        assert(reported(cs, root, show_hidden, fin.1[b]));
                        let j = choose|j: int| reported_from(cs, root, show_hidden, fin.1[b], j);
                        assert(lists[i][k].path@ != lists[n][j].path@);
                    }
                }
            }
        }
    }
}

/// A walk whose listings never repeat a child's path reports no directory
/// twice: the paths it finds are pairwise distinct.
pub proof fn lemma_walk_found_distinct(st: WalkState, root: Seq<char>, lists: Seq<Seq<DirChild>>, show_hidden: bool, max_depth: usize, limit: usize)
    requires
        st.1.len() == 0,
        child_paths_distinct(lists),
    ensures
        ({
            let fin = run_spec(st, lists, root, show_hidden, max_depth, limit).0;
            forall|a: int, b: int| 0 <= a < b < fin.1.len() ==> (#[trigger] fin.1[a]).0 != (#[trigger] fin.1[b]).0
        }),
{
    lemma_run_distinct(st, root, lists, show_hidden, max_depth, limit);
}

/// The noise trees are never walked: `.git`, `node_modules`, `target`,
/// `.direnv`, `.cache`, `result`, `.venv` and `__pycache__` are skipped
/// names, and a child with one of these names is neither reported nor
/// queued for reading, whatever else holds of it.
pub proof fn lemma_noise_trees_skipped(st: WalkState, c: DirChild, depth: usize, root: Seq<char>, show_hidden: bool, limit: usize)
    ensures
        skipped_name(".git"@),
        skipped_name("node_modules"@),
        skipped_name("target"@),
        skipped_name(".direnv"@),
        skipped_name(".cache"@),
        skipped_name("result"@),
        skipped_name(".venv"@),
        skipped_name("__pycache__"@),
        c.name@ == ".git"@ || c.name@ == "node_modules"@ || c.name@ == "target"@ || c.name@ == ".direnv"@
            || c.name@ == ".cache"@ || c.name@ == "result"@ || c.name@ == ".venv"@ || c.name@ == "__pycache__"@
            ==> !admitted(c, show_hidden) && visit_step(st, c, depth, root, show_hidden, limit) == st,
{
}


// ---------------------------------------------------------------------------
// Human-readable sizes and ages
// ---------------------------------------------------------------------------

/// `n / d` rounded to the nearest integer, ties to the even one.
pub open spec fn round_half_even(n: nat, d: nat) -> nat {
    let q = n / d;
    let r = n % d;
    if 2 * r > d || (2 * r == d && q % 2 == 1) {
        q + 1
    } else {
        q
    }
}

/// The distance between consecutive `f64` values around `b`: 1 below
/// 2^53, doubling with each further bit of `b`.
pub open spec fn double_spacing(b: nat) -> nat {
    if b < 0x20_0000_0000_0000 { 1 }
    else if b < 0x40_0000_0000_0000 { 2 }
    else if b < 0x80_0000_0000_0000 { 4 }
    else if b < 0x100_0000_0000_0000 { 8 }
    else if b < 0x200_0000_0000_0000 { 16 }
    else if b < 0x400_0000_0000_0000 { 32 }
    else if b < 0x800_0000_0000_0000 { 64 }
    else if b < 0x1000_0000_0000_0000 { 128 }
    else if b < 0x2000_0000_0000_0000 { 256 }
    else if b < 0x4000_0000_0000_0000 { 512 }
    else if b < 0x8000_0000_0000_0000 { 1024 }
    else { 2048 }
}

/// `b` as the nearest `f64` holds it (`b as f64`): rounded to a multiple of
/// the spacing of doubles around it, ties to even.
pub open spec fn nearest_double(b: nat) -> nat {
    round_half_even(b, double_spacing(b)) * double_spacing(b)
}

/// The power of 1024 that a size is shown in: the largest one it reaches,
/// up to 1024^5.
pub open spec fn size_unit(f: nat) -> nat {
    if f < 1024 { 0 }
    else if f < 1_048_576 { 1 }
    else if f < 1_073_741_824 { 2 }
    else if f < 1_099_511_627_776 { 3 }
    else if f < 1_125_899_906_842_624 { 4 }
    else { 5 }
}

/// 1024 to the power `k`.
pub open spec fn unit_base(k: nat) -> nat {
    if k == 0 { 1 }
    else if k == 1 { 1024 }
    else if k == 2 { 1_048_576 }
    else if k == 3 { 1_073_741_824 }
    else if k == 4 { 1_099_511_627_776 }
    else { 1_125_899_906_842_624 }
}

/// The unit letter for 1024 to the power `k`.
pub open spec fn unit_letter(k: nat) -> Seq<char> {
    if k == 0 { "B"@ }
    else if k == 1 { "K"@ }
    else if k == 2 { "M"@ }
    else if k == 3 { "G"@ }
    else if k == 4 { "T"@ }
    else { "P"@ }
}

/// A byte count as shown: plain bytes under 1 KiB, otherwise the size in
/// the largest unit it reaches, to one decimal (as `{:.1}` prints the
/// double nearest to the byte count).
pub open spec fn human_size_text(bytes: u64) -> Seq<char> {
    let f = nearest_double(bytes as nat);
    let k = size_unit(f);
    if k == 0 {
        crate::text::decimal(bytes as nat) + " B"@
    } else {
        let t = round_half_even(10 * f, unit_base(k));
        crate::text::decimal(t / 10) + "."@ + crate::text::decimal(t % 10) + unit_letter(k)
    }
}

proof fn lemma_round_up_bound(b: nat, p: nat, m: nat)
    requires
        p > 0,
        b < m,
        m % p == 0,
    ensures
        (b / p + 1) * p <= m,
{
    let q = b / p;
    let k = m / p;
    assert(m == k * p) by (nonlinear_arith)
        requires
            m % p == 0,
            k == m / p,
            p > 0,
    ;
    assert(q * p <= b) by (nonlinear_arith)
        requires
            q == b / p,
            p > 0,
    ;
    assert(q < k) by (nonlinear_arith)
        requires
            q * p <= b,
            b < m,
            m == k * p,
            p > 0,
    ;
    assert((q + 1) * p <= k * p) by (nonlinear_arith)
        requires
            q + 1 <= k,
            p > 0,
    ;
}

fn round_half_even_u128(n: u128, d: u128) -> (r: u128)
    requires
        d > 0,
        n / d < u128::MAX,
    ensures
        r == round_half_even(n as nat, d as nat),
        r <= n as nat / d as nat + 1,
{
    let q = n / d;
    let rem = n % d;
    if rem > d - rem || (rem == d - rem && q % 2 == 1) {
        q + 1
    } else {
        q
    }
}

fn double_spacing_of(b: u64) -> (p: u128)
    ensures
        p == double_spacing(b as nat),
{
    if b < 0x20_0000_0000_0000 { 1 }
    else if b < 0x40_0000_0000_0000 { 2 }
    else if b < 0x80_0000_0000_0000 { 4 }
    else if b < 0x100_0000_0000_0000 { 8 }
    else if b < 0x200_0000_0000_0000 { 16 }
    else if b < 0x400_0000_0000_0000 { 32 }
    else if b < 0x800_0000_0000_0000 { 64 }
    else if b < 0x1000_0000_0000_0000 { 128 }
    else if b < 0x2000_0000_0000_0000 { 256 }
    else if b < 0x4000_0000_0000_0000 { 512 }
    else if b < 0x8000_0000_0000_0000 { 1024 }
    else { 2048 }
}

/// Human-readable byte size: `"512 B"`, `"1.5K"`, `"3.0G"`.
pub fn human_size(bytes: u64) -> (r: String)
    ensures
        r@ == human_size_text(bytes),
{
    let p = double_spacing_of(bytes);
    assert(bytes as nat / p as nat <= bytes as nat) by (nonlinear_arith)
        requires
            p >= 1,
    ;
    let rounded = round_half_even_u128(bytes as u128, p);
    proof {
        lemma_round_up_bound(bytes as nat, p as nat, 0x1_0000_0000_0000_0000);
        assert(rounded * p <= 0x1_0000_0000_0000_0000) by (nonlinear_arith)
            requires
                rounded <= bytes as nat / p as nat + 1,
                (bytes as nat / p as nat + 1) * p <= 0x1_0000_0000_0000_0000,
                p > 0,
        ;
    }
    let f: u128 = rounded * p;
    proof {
        assert(10 * f / 1024 <= 10 * 0x1_0000_0000_0000_0000 / 1024);
    }
    let (k, base, letter): (u64, u128, &str) = if f < 1024 {
        (0, 1, "B")
    } else if f < 1_048_576 {
        (1, 1024, "K")
    } else if f < 1_073_741_824 {
        (2, 1_048_576, "M")
    } else if f < 1_099_511_627_776 {
        (3, 1_073_741_824, "G")
    } else if f < 1_125_899_906_842_624 {
        (4, 1_099_511_627_776, "T")
    } else {
        (5, 1_125_899_906_842_624, "P")
    };
    if k == 0 {
        let mut r = crate::text::decimal_string(bytes);
        r.append(" B");
        r
    } else {
        let t = round_half_even_u128(10 * f, base);
        let mut r = crate::text::decimal_string((t / 10) as u64);
        r.append(".");
        let frac = crate::text::decimal_string((t % 10) as u64);
        r.append(frac.as_str());
        r.append(letter);
        r
    }
}

/// A rough "time ago" for an age in seconds.
pub open spec fn time_ago_text(secs: u64) -> Seq<char> {
    if secs < 60 {
        "just now"@
    } else if secs < 3600 {
        crate::text::decimal((secs / 60) as nat) + "m ago"@
    } else if secs < 86400 {
        crate::text::decimal((secs / 3600) as nat) + "h ago"@
    } else if secs < 2_592_000 {
        crate::text::decimal((secs / 86400) as nat) + "d ago"@
    } else {
        crate::text::decimal((secs / 2_592_000) as nat) + "mo ago"@
    }
}

/// A rough "time ago" for an age of `secs` seconds.
pub fn time_ago(secs: u64) -> (r: String)
    ensures
        r@ == time_ago_text(secs),
{
    if secs < 60 {
        String::from_str("just now")
    } else if secs < 3600 {
        let mut r = crate::text::decimal_string(secs / 60);
        r.append("m ago");
        r
    } else if secs < 86400 {
        let mut r = crate::text::decimal_string(secs / 3600);
        r.append("h ago");
        r
    } else if secs < 2_592_000 {
        let mut r = crate::text::decimal_string(secs / 86400);
        r.append("d ago");
        r
    } else {
        let mut r = crate::text::decimal_string(secs / 2_592_000);
        r.append("mo ago");
        r
    }
}

/// The seconds elapsed since `t` (`SystemTime::elapsed`), 0 when `t` lies
/// in the future. It depends on the clock; nothing is claimed.
#[verifier::external_body]
fn elapsed_secs(t: &SystemTime) -> u64 {
    t.elapsed().map(|d| d.as_secs()).unwrap_or(0)
}

/// `secs` is a reading of the seconds elapsed since `t`: a value that
/// `elapsed_secs` can return for it.
pub closed spec fn elapsed_reading(t: SystemTime, secs: u64) -> bool {
    call_ensures(elapsed_secs, (&t,), secs)
}

/// Rough "time ago" for a modified timestamp: the text of the seconds
/// elapsed since it, as the clock reports them.
pub fn human_time_ago(t: SystemTime) -> (r: String)
    ensures
        exists|secs: u64| elapsed_reading(t, secs) && r@ == #[trigger] time_ago_text(secs),
{
    let elapsed = elapsed_secs;
    let secs = elapsed(&t);
    assert(elapsed_reading(t, secs));
    time_ago(secs)
}

/// `text` shows an age of `secs` seconds in its largest whole unit: "just
/// now" under a minute, then whole minutes, hours, days (of 86 400 s) and
/// months (of 30 days), each followed by " ago".
pub open spec fn shows_age(secs: u64, text: Seq<char>) -> bool {
    &&& secs < 60 ==> text == "just now"@
    &&& 60 <= secs < 3600 ==> text == crate::text::decimal((secs / 60) as nat) + "m ago"@
    &&& 3600 <= secs < 86_400 ==> text == crate::text::decimal((secs / 3600) as nat) + "h ago"@
    &&& 86_400 <= secs < 2_592_000 ==> text == crate::text::decimal((secs / 86_400) as nat) + "d ago"@
    &&& 2_592_000 <= secs ==> text == crate::text::decimal((secs / 2_592_000) as nat) + "mo ago"@
}

/// The age shown for a modified time is the clock's reading of the seconds
/// elapsed since it, in its largest whole unit: three days after `t` it
/// reads "3d ago", not a count of hours or minutes.
pub proof fn lemma_age_shows_elapsed(t: SystemTime, r: Seq<char>)
    requires
        exists|secs: u64| elapsed_reading(t, secs) && r == #[trigger] time_ago_text(secs),
    ensures
        exists|secs: u64| elapsed_reading(t, secs) && #[trigger] shows_age(secs, r),
{
    let secs = choose|secs: u64| elapsed_reading(t, secs) && r == #[trigger] time_ago_text(secs);
    assert(shows_age(secs, r));
}

/// A name is hidden exactly when it starts with a dot. A hidden child is
/// reported only when hidden entries are shown; a directory whose name is
/// neither hidden nor skipped is always admitted.
pub proof fn lemma_hidden_names(c: DirChild, show_hidden: bool)
    ensures
        hidden_name(c.name@) <==> (c.name@.len() > 0 && c.name@[0] == '.'),
        c.name@.len() > 0 && c.name@[0] == '.' && !show_hidden ==> !admitted(c, show_hidden),
        c.is_dir && !(c.name@.len() > 0 && c.name@[0] == '.') && !skipped_name(c.name@) ==> admitted(c, show_hidden),
{
}

} // verus!
