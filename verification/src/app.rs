//! The explorer's state and the transitions the keymap drives.
//!
//! Three modes share one state: browsing a directory level, jumping among
//! frecent and bookmarked directories, and finding directories below the
//! current one. Where a transition needs the disk (a directory listing,
//! the recursive walk, saving the store), it returns an [`Action`] naming
//! that work; the program performs it and hands the outcome back.

use vstd::prelude::*;
use vstd::string::*;
use crate::fs::{Entry, FoundDir, Walk, within_limit};
use crate::fuzzy::{filter, filter_result, Matcher};
use crate::store::{clock_reading, dir_reading, ranked_result, RankedDir, Store};
use crate::text::{append_str, decimal, decimal_string, opt_view};

verus! {

/// Which view the explorer shows.
#[derive(PartialEq, Eq, Structural, Clone, Copy, Debug)]
pub enum Mode {
    Browse,
    Jump,
    Find,
}

/// A directory in the jump list.
pub struct JumpEntry {
    pub path: String,
    pub display: String,
    pub bookmarked: bool,
}

/// A directory found below the find root.
pub struct FindEntry {
    pub path: String,
    /// Path relative to the find root.
    pub display: String,
}

/// The whole explorer state.
pub struct App {
    pub mode: Mode,
    pub cwd: String,

    // Browse mode
    pub entries: Vec<Entry>,
    pub filtered: Vec<usize>,
    pub cursor: usize,
    pub query: String,
    pub show_hidden: bool,

    // Jump mode
    pub jump_entries: Vec<JumpEntry>,
    pub jump_filtered: Vec<usize>,
    pub jump_cursor: usize,
    pub jump_query: String,

    // Recursive find mode
    pub find_root: String,
    pub find_entries: Vec<FindEntry>,
    pub find_filtered: Vec<usize>,
    pub find_cursor: usize,
    pub find_query: String,

    pub store: Store,
    pub matcher: Matcher,
    pub status: Option<String>,

    /// Set when the user accepts a directory; the caller cd's here.
    pub selected: Option<String>,
    pub should_quit: bool,
}

/// A cursor over a filtered list: 0 for an empty list, else on an item.
pub open spec fn cursor_ok(cursor: usize, len: nat) -> bool {
    if len == 0 { cursor == 0 } else { cursor < len }
}

/// Every index of `filtered` points into a list of `n` items.
pub open spec fn indices_ok(filtered: Seq<usize>, n: nat) -> bool {
    forall|k: int| 0 <= k < filtered.len() ==> #[trigger] filtered[k] < n
}

/// The cursor after a filter left `len` items: kept if still on one, else
/// on the last item (0 when none is left).
pub open spec fn clamped(cursor: usize, len: nat) -> usize {
    if cursor >= len {
        if len == 0 { 0 } else { (len - 1) as usize }
    } else {
        cursor
    }
}

/// The cursor moved by `delta` within a list of `len` items, stopping at
/// either end; unchanged on an empty list.
pub open spec fn moved(cursor: usize, delta: isize, len: nat) -> usize {
    if len == 0 {
        cursor
    } else {
        let next = cursor + delta;
        if next < 0 { 0 } else if next >= len { (len - 1) as usize } else { next as usize }
    }
}

/// The names of `entries`.
pub open spec fn entry_names(entries: Seq<Entry>) -> Seq<String> {
    entries.map_values(|e: Entry| e.name)
}

impl App {
    /// The invariant every transition keeps: each list's indices point
    /// into its entries and each cursor sits on an item of its list.
    pub open spec fn wf(&self) -> bool {
        &&& indices_ok(self.filtered@, self.entries@.len())
        &&& cursor_ok(self.cursor, self.filtered@.len())
        &&& indices_ok(self.jump_filtered@, self.jump_entries@.len())
        &&& cursor_ok(self.jump_cursor, self.jump_filtered@.len())
        &&& indices_ok(self.find_filtered@, self.find_entries@.len())
        &&& cursor_ok(self.find_cursor, self.find_filtered@.len())
    }

    /// A browsing explorer at `start`, showing hidden entries if
    /// `show_hidden`, with `listing` (the listing of `start`, or the error
    /// met reading it) installed as by [`App::reload`].
    pub fn new(start: String, store: Store, show_hidden: bool, listing: Result<Vec<Entry>, String>) -> (app: App)
        ensures
            app.wf(),
            app.mode == Mode::Browse,
            app.cwd == start,
            app.show_hidden == show_hidden,
            app.store == store,
            app.query@.len() == 0,
            app.cursor == 0,
            listing matches Ok(es) ==> app.entries == es && app.status is None,
            listing matches Err(e) ==> app.entries@.len() == 0
                && (app.status matches Some(st) && st@ == "cannot read directory: "@ + e@),
            app.filtered@ == Seq::new(app.entries@.len(), |i: int| i as usize),
            app.jump_entries@.len() == 0 && app.jump_filtered@.len() == 0 && app.jump_cursor == 0 && app.jump_query@.len() == 0,
            app.find_root@.len() == 0 && app.find_entries@.len() == 0 && app.find_filtered@.len() == 0
                && app.find_cursor == 0 && app.find_query@.len() == 0,
            app.selected is None,
            !app.should_quit,
    {
        let mut app = App {
            mode: Mode::Browse,
            cwd: start,
            entries: Vec::new(),
            filtered: Vec::new(),
            cursor: 0,
            query: String::new(),
            show_hidden,
            jump_entries: Vec::new(),
            jump_filtered: Vec::new(),
            jump_cursor: 0,
            jump_query: String::new(),
            find_root: String::new(),
            find_entries: Vec::new(),
            find_filtered: Vec::new(),
            find_cursor: 0,
            find_query: String::new(),
            store,
            matcher: Matcher::new(),
            status: None,
            selected: None,
            should_quit: false,
        };
        app.reload(listing);
        app
    }

    /// Refilters the browse list with the current query, keeping the cursor
    /// on an item.
    pub fn apply_filter(&mut self)
        ensures
            post_apply_filter(*old(self), *final(self)),
            indices_ok(final(self).filtered@, final(self).entries@.len()),
            cursor_ok(final(self).cursor, final(self).filtered@.len()),
            old(self).wf() ==> final(self).wf(),
    {
        let mut names: Vec<String> = Vec::new();
        let mut i: usize = 0;
        while i < self.entries.len()
            invariant
                i <= self.entries@.len(),
                names@ == entry_names(self.entries@).take(i as int),
            decreases self.entries@.len() - i,
        {
            names.push(self.entries[i].name.clone());
            i = i + 1;
            assert(names@ =~= entry_names(self.entries@).take(i as int));
        }
        assert(names@ =~= entry_names(self.entries@));
        self.filtered = filter(&self.matcher, names.as_slice(), self.query.as_str());
        if self.cursor >= self.filtered.len() {
            self.cursor = if self.filtered.len() == 0 { 0 } else { self.filtered.len() - 1 };
        }
        proof {
            lemma_filter_indices(entry_names(self.entries@), self.query@, self.filtered@);
        }
    }

    /// Installs a fresh listing of `cwd`: the entries read, or none and an
    /// error in the status line when the directory could not be read; then
    /// refilters.
    pub fn reload(&mut self, listing: Result<Vec<Entry>, String>)
        ensures
            listing matches Ok(es) ==> final(self).entries == es && final(self).status is None,
            listing matches Err(e) ==> final(self).entries@.len() == 0
                && (final(self).status matches Some(st) && st@ == "cannot read directory: "@ + e@),
            filter_result(entry_names(final(self).entries@), old(self).query@, final(self).filtered@),
            *final(self) == (App {
                entries: final(self).entries,
                status: final(self).status,
                filtered: final(self).filtered,
                cursor: clamped(old(self).cursor, final(self).filtered@.len()),
                ..*old(self)
            }),
            indices_ok(final(self).filtered@, final(self).entries@.len()),
            cursor_ok(final(self).cursor, final(self).filtered@.len()),
    {
        match listing {
            Ok(es) => {
                self.entries = es;
                self.status = None;
            },
            Err(e) => {
                self.entries = Vec::new();
                let mut st = String::from_str("cannot read directory: ");
                append_str(&mut st, e.as_str());
                self.status = Some(st);
            },
        }
        self.apply_filter();
    }

    /// The position in `entries` of the highlighted entry, if any.
    pub open spec fn current_index(&self) -> Option<int> {
        if self.cursor < self.filtered@.len() && self.filtered@[self.cursor as int] < self.entries@.len() {
            Some(self.filtered@[self.cursor as int] as int)
        } else {
            None
        }
    }

    /// The highlighted entry of the browse list.
    pub fn current_entry(&self) -> (r: Option<&Entry>)
        ensures
            match self.current_index() {
                Some(i) => r matches Some(e) && *e == self.entries@[i],
                None => r is None,
            },
    {
        if self.cursor < self.filtered.len() && self.filtered[self.cursor] < self.entries.len() {
            Some(&self.entries[self.filtered[self.cursor]])
        } else {
            None
        }
    }

    /// Moves the browse cursor by `delta`, stopping at either end.
    pub fn move_cursor(&mut self, delta: isize)
        ensures
            post_move_cursor(*old(self), *final(self), delta),
            old(self).wf() ==> final(self).wf(),
    {
        self.cursor = move_within(self.cursor, delta, self.filtered.len());
    }

    /// The highlighted entry is a directory.
    pub open spec fn highlights_dir(&self) -> bool {
        self.current_index() matches Some(i) && self.entries@[i].is_dir
    }

    /// The directory the highlight stands for: the highlighted entry if it
    /// is a directory, otherwise the current directory.
    pub open spec fn target_dir(&self) -> String {
        if self.highlights_dir() {
            self.entries@[self.current_index()->0].path
        } else {
            self.cwd
        }
    }

    fn target(&self) -> (r: String)
        ensures
            r == self.target_dir(),
    {
        match self.current_entry() {
            Some(e) if e.is_dir => e.path.clone(),
            _ => self.cwd.clone(),
        }
    }

    /// Descends into the highlighted directory: it becomes the current
    /// directory, with an empty query and the cursor at the top, and its
    /// listing is to be read. Nothing happens on a file or an empty list.
    pub fn descend(&mut self) -> (r: Action)
        ensures
            post_descend(*old(self), *final(self), r),
            old(self).wf() ==> final(self).wf(),
    {
        let path = match self.current_entry() {
            Some(e) => if e.is_dir { Some(e.path.clone()) } else { None },
            None => None,
        };
        match path {
            Some(p) => {
                self.cwd = p;
                self.query = String::new();
                self.cursor = 0;
                Action::Reload(AfterReload::Nothing)
            },
            None => Action::Nothing,
        }
    }

    /// Goes up one level given the parent of the current directory and the
    /// current directory's own name: the parent becomes the current
    /// directory, with an empty query and the cursor at the top, and once
    /// its listing is read the folder we came from is re-selected. Nothing
    /// happens at the root: no parent, or a parent that is the directory
    /// itself (`parent_is_cwd`).
    pub fn ascend_to(&mut self, parent: Option<String>, child: Option<String>, parent_is_cwd: bool) -> (r: Action)
        ensures
            ascent(*old(self), *final(self), opt_view(parent), opt_view(child), parent_is_cwd, r),
            old(self).wf() ==> final(self).wf(),
    {
        match parent {
            None => Action::Nothing,
            Some(p) => {
                if parent_is_cwd {
                    return Action::Nothing;
                }
                self.cwd = p;
                self.query = String::new();
                self.cursor = 0;
                match child {
                    Some(name) => Action::Reload(AfterReload::Reselect(name)),
                    None => Action::Reload(AfterReload::Nothing),
                }
            },
        }
    }

    /// Goes up one level, re-selecting the folder we came from once the
    /// parent's listing is read.
    pub fn ascend(&mut self) -> (r: Action)
        ensures
            post_ascend(*old(self), *final(self), r),
            old(self).wf() ==> final(self).wf(),
    {
        let child = path_file_name(self.cwd.as_str());
        let parent = path_parent(self.cwd.as_str());
        let parent_is_cwd = match &parent {
            Some(p) => same_path(p.as_str(), self.cwd.as_str()),
            None => false,
        };
        self.ascend_to(parent, child, parent_is_cwd)
    }

    /// Accepts a directory and quits: the highlighted folder if it is one,
    /// otherwise the current directory itself.
    pub fn accept(&mut self)
        ensures
            post_accept(*old(self), *final(self)),
            old(self).wf() ==> final(self).wf(),
    {
        let target = self.target();
        self.selected = Some(target);
        self.should_quit = true;
    }

    /// Flips whether hidden entries are shown; the listing is to be read
    /// again, and the new setting reported.
    pub fn toggle_hidden(&mut self) -> (r: Action)
        ensures
            post_toggle_hidden(*old(self), *final(self), r),
            old(self).wf() ==> final(self).wf(),
    {
        self.show_hidden = !self.show_hidden;
        Action::Reload(AfterReload::ReportHidden)
    }

    /// Completes a reload asked for by an [`Action::Reload`]: installs the
    /// listing, then re-selects the named folder or reports the hidden-files
    /// setting.
    pub fn finish_reload(&mut self, listing: Result<Vec<Entry>, String>, after: AfterReload)
        ensures
            listing matches Ok(es) ==> final(self).entries == es,
            listing matches Err(e) ==> final(self).entries@.len() == 0,
            filter_result(entry_names(final(self).entries@), old(self).query@, final(self).filtered@),
            match after {
                AfterReload::ReportHidden => final(self).status matches Some(st)
                    && st@ == "hidden files: "@ + (if old(self).show_hidden { "shown"@ } else { "hidden"@ }),
                _ => {
                    &&& listing matches Ok(_) ==> final(self).status is None
                    &&& listing matches Err(e) ==> (final(self).status matches Some(st) && st@ == "cannot read directory: "@ + e@)
                },
            },
            final(self).cursor == match after {
                AfterReload::Reselect(name) => match first_named(final(self).entries@, final(self).filtered@, name@) {
                    Some(k) => #[verifier::truncate] (k as usize),
                    None => clamped(old(self).cursor, final(self).filtered@.len()),
                },
                _ => clamped(old(self).cursor, final(self).filtered@.len()),
            },
            *final(self) == (App {
                entries: final(self).entries,
                status: final(self).status,
                filtered: final(self).filtered,
                cursor: final(self).cursor,
                ..*old(self)
            }),
            old(self).wf() ==> final(self).wf(),
    {
        self.reload(listing);
        assert(old(self).wf() ==> self.wf());
        match after {
            AfterReload::Nothing => {},
            AfterReload::Reselect(name) => {
                if let Some(pos) = self.position_named(name.as_str()) {
                    proof {
                        lemma_first_named_some(self.entries@, self.filtered@, name@);
                    }
                    self.cursor = pos;
                }
            },
            AfterReload::ReportHidden => {
                let mut st = String::from_str("hidden files: ");
                append_str(&mut st, if self.show_hidden { "shown" } else { "hidden" });
                self.status = Some(st);
            },
        }
    }

    /// The first position in the browse list whose entry is named `name`.
    fn position_named(&self, name: &str) -> (r: Option<usize>)
        requires
            indices_ok(self.filtered@, self.entries@.len()),
        ensures
            r == match first_named(self.entries@, self.filtered@, name@) {
                Some(k) => Some(k as usize),
                None => None::<usize>,
            },
    {
        let mut k: usize = 0;
        while k < self.filtered.len()
            invariant
                indices_ok(self.filtered@, self.entries@.len()),
                k <= self.filtered@.len(),
                forall|j: int| 0 <= j < k ==> !#[trigger] named_at(self.entries@, self.filtered@, j, name@),
            decreases self.filtered@.len() - k,
        {
            if crate::text::str_eq(self.entries[self.filtered[k]].name.as_str(), name) {
                proof {
                    assert(named_at(self.entries@, self.filtered@, k as int, name@));
                    lemma_first_named(self.entries@, self.filtered@, name@, k as int);
                }
                return Some(k);
            }
            k = k + 1;
        }
        proof {
            lemma_first_named_none(self.entries@, self.filtered@, name@);
        }
        None
    }

    /// Bookmarks the highlighted directory (or the current directory if the
    /// highlight is a file), or removes its bookmark, and reports it; the
    /// store is to be saved.
    pub fn bookmark_current(&mut self) -> (r: Action)
        ensures
            post_bookmark(*old(self), *final(self), r),
            old(self).wf() ==> final(self).wf(),
    {
        let target = self.target();
        let on = self.store.toggle_bookmark(target.as_str());
        let mut st = String::from_str(if on { "bookmarked " } else { "un-bookmarked " });
        append_str(&mut st, target.as_str());
        self.status = Some(st);
        Action::Save
    }

    // ---- Jump mode ----

    /// Enters jump mode: the jump list is the store's ranking (bookmarks
    /// first, then by frecency, existing directories only), with an empty
    /// query and the cursor at the top; an empty list is reported.
    pub fn enter_jump_mode(&mut self)
        ensures
            post_enter_jump(*old(self), *final(self)),
            old(self).wf() ==> final(self).wf(),
    {
        self.mode = Mode::Jump;
        self.jump_query = String::new();
        self.jump_cursor = 0;
        let ranked = self.store.ranked();
        let mut jumps: Vec<JumpEntry> = Vec::new();
        let mut i: usize = 0;
        while i < ranked.len()
            invariant
                i <= ranked@.len(),
                jumps@ == ranked@.take(i as int).map_values(|d: RankedDir| jump_entry_of(d)),
            decreases ranked@.len() - i,
        {
            let d = &ranked[i];
            jumps.push(JumpEntry { path: d.path.clone(), display: d.path.clone(), bookmarked: d.bookmarked });
            i = i + 1;
            assert(jumps@ =~= ranked@.take(i as int).map_values(|d: RankedDir| jump_entry_of(d)));
        }
        assert(ranked@.take(ranked@.len() as int) =~= ranked@);
        self.jump_entries = jumps;
        self.jump_apply_filter();
        if self.jump_entries.len() == 0 {
            self.status = Some(String::from_str("no frecent/bookmarked dirs yet — accept some first"));
        }
    }

    /// Leaves jump mode for browsing and clears the status line.
    pub fn exit_jump_mode(&mut self)
        ensures
            post_exit_jump(*old(self), *final(self)),
            old(self).wf() ==> final(self).wf(),
    {
        self.mode = Mode::Browse;
        self.status = None;
    }

    /// Refilters the jump list with the jump query.
    pub fn jump_apply_filter(&mut self)
        ensures
            post_jump_apply_filter(*old(self), *final(self)),
    {
        let mut names: Vec<String> = Vec::new();
        let mut i: usize = 0;
        while i < self.jump_entries.len()
            invariant
                i <= self.jump_entries@.len(),
                names@ == jump_names(self.jump_entries@).take(i as int),
            decreases self.jump_entries@.len() - i,
        {
            names.push(self.jump_entries[i].display.clone());
            i = i + 1;
            assert(names@ =~= jump_names(self.jump_entries@).take(i as int));
        }
        assert(names@ =~= jump_names(self.jump_entries@));
        self.jump_filtered = filter(&self.matcher, names.as_slice(), self.jump_query.as_str());
        if self.jump_cursor >= self.jump_filtered.len() {
            self.jump_cursor = if self.jump_filtered.len() == 0 { 0 } else { self.jump_filtered.len() - 1 };
        }
        proof {
            lemma_filter_indices(jump_names(self.jump_entries@), self.jump_query@, self.jump_filtered@);
        }
    }

    /// Moves the jump cursor by `delta`, stopping at either end.
    pub fn jump_move(&mut self, delta: isize)
        ensures
            post_jump_move(*old(self), *final(self), delta),
            old(self).wf() ==> final(self).wf(),
    {
        self.jump_cursor = move_within(self.jump_cursor, delta, self.jump_filtered.len());
    }

    /// The position in `jump_entries` of the highlighted entry, if any.
    pub open spec fn jump_index(&self) -> Option<int> {
        if self.jump_cursor < self.jump_filtered@.len() && self.jump_filtered@[self.jump_cursor as int] < self.jump_entries@.len() {
            Some(self.jump_filtered@[self.jump_cursor as int] as int)
        } else {
            None
        }
    }

    /// The highlighted entry of the jump list.
    pub fn jump_current(&self) -> (r: Option<&JumpEntry>)
        ensures
            match self.jump_index() {
                Some(i) => r matches Some(e) && *e == self.jump_entries@[i],
                None => r is None,
            },
    {
        if self.jump_cursor < self.jump_filtered.len() && self.jump_filtered[self.jump_cursor] < self.jump_entries.len() {
            Some(&self.jump_entries[self.jump_filtered[self.jump_cursor]])
        } else {
            None
        }
    }

    /// Accepts the highlighted jump entry and quits; nothing happens on an
    /// empty list.
    pub fn jump_accept(&mut self)
        ensures
            post_jump_accept(*old(self), *final(self)),
            old(self).wf() ==> final(self).wf(),
    {
        let path = match self.jump_current() {
            Some(e) => Some(e.path.clone()),
            None => None,
        };
        if let Some(p) = path {
            self.selected = Some(p);
            self.should_quit = true;
        }
    }

    // ---- Recursive find mode ----

    /// Enters find mode below the current directory, with an empty query
    /// and the cursor at the top; the returned walk is to be run and its
    /// result handed to [`App::finish_find`]. The walk reads at most
    /// [`FIND_MAX_DEPTH`] levels and stops after [`FIND_LIMIT`] directories.
    pub fn enter_find_mode(&mut self) -> (r: Action)
        ensures
            post_enter_find(*old(self), *final(self), r),
            old(self).wf() ==> final(self).wf(),
    {
        self.mode = Mode::Find;
        self.find_query = String::new();
        self.find_cursor = 0;
        self.find_root = self.cwd.clone();
        Action::Find(Walk::new(self.cwd.as_str(), self.show_hidden, FIND_MAX_DEPTH, FIND_LIMIT))
    }

    /// Completes find mode with the directories the walk found (and whether
    /// it hit its limit): they become the find list, refiltered, and the
    /// count is reported.
    pub fn finish_find(&mut self, found: Vec<FoundDir>, truncated: bool)
        ensures
            final(self).find_entries@ == found@.map_values(|d: FoundDir| find_entry_of(d)),
            filter_result(find_names(final(self).find_entries@), old(self).find_query@, final(self).find_filtered@),
            final(self).status matches Some(st) && st@ == find_status(found@.len(), truncated, old(self).cwd@),
            *final(self) == (App {
                find_entries: final(self).find_entries,
                find_filtered: final(self).find_filtered,
                find_cursor: clamped(old(self).find_cursor, final(self).find_filtered@.len()),
                status: final(self).status,
                ..*old(self)
            }),
            old(self).wf() ==> final(self).wf(),
    {
        let mut entries: Vec<FindEntry> = Vec::new();
        let mut i: usize = 0;
        while i < found.len()
            invariant
                i <= found@.len(),
                entries@ == found@.take(i as int).map_values(|d: FoundDir| find_entry_of(d)),
            decreases found@.len() - i,
        {
            let d = &found[i];
            entries.push(FindEntry { path: d.path.clone(), display: d.rel.clone() });
            i = i + 1;
            assert(entries@ =~= found@.take(i as int).map_values(|d: FoundDir| find_entry_of(d)));
        }
        assert(found@.take(found@.len() as int) =~= found@);
        self.find_entries = entries;
        self.find_apply_filter();
        let mut st = String::from_str("found ");
        let n = decimal_string(self.find_entries.len() as u64);
        append_str(&mut st, n.as_str());
        if truncated {
            append_str(&mut st, "+ dirs (capped) under ");
        } else {
            append_str(&mut st, " dirs under ");
        }
        append_str(&mut st, self.cwd.as_str());
        self.status = Some(st);
    }

    /// Leaves find mode for browsing and clears the status line.
    pub fn exit_find_mode(&mut self)
        ensures
            post_exit_find(*old(self), *final(self)),
            old(self).wf() ==> final(self).wf(),
    {
        self.mode = Mode::Browse;
        self.status = None;
    }

    /// Refilters the find list with the find query.
    pub fn find_apply_filter(&mut self)
        ensures
            post_find_apply_filter(*old(self), *final(self)),
    {
        let mut names: Vec<String> = Vec::new();
        let mut i: usize = 0;
        while i < self.find_entries.len()
            invariant
                i <= self.find_entries@.len(),
                names@ == find_names(self.find_entries@).take(i as int),
            decreases self.find_entries@.len() - i,
        {
            names.push(self.find_entries[i].display.clone());
            i = i + 1;
            assert(names@ =~= find_names(self.find_entries@).take(i as int));
        }
        assert(names@ =~= find_names(self.find_entries@));
        self.find_filtered = filter(&self.matcher, names.as_slice(), self.find_query.as_str());
        if self.find_cursor >= self.find_filtered.len() {
            self.find_cursor = if self.find_filtered.len() == 0 { 0 } else { self.find_filtered.len() - 1 };
        }
        proof {
            lemma_filter_indices(find_names(self.find_entries@), self.find_query@, self.find_filtered@);
        }
    }

    /// Moves the find cursor by `delta`, stopping at either end.
    pub fn find_move(&mut self, delta: isize)
        ensures
            post_find_move(*old(self), *final(self), delta),
            old(self).wf() ==> final(self).wf(),
    {
        self.find_cursor = move_within(self.find_cursor, delta, self.find_filtered.len());
    }

    /// The position in `find_entries` of the highlighted entry, if any.
    pub open spec fn find_index(&self) -> Option<int> {
        if self.find_cursor < self.find_filtered@.len() && self.find_filtered@[self.find_cursor as int] < self.find_entries@.len() {
            Some(self.find_filtered@[self.find_cursor as int] as int)
        } else {
            None
        }
    }

    /// The highlighted entry of the find list.
    pub fn find_current(&self) -> (r: Option<&FindEntry>)
        ensures
            match self.find_index() {
                Some(i) => r matches Some(e) && *e == self.find_entries@[i],
                None => r is None,
            },
    {
        if self.find_cursor < self.find_filtered.len() && self.find_filtered[self.find_cursor] < self.find_entries.len() {
            Some(&self.find_entries[self.find_filtered[self.find_cursor]])
        } else {
            None
        }
    }

    /// Accepts the highlighted find entry and quits; nothing happens on an
    /// empty list.
    pub fn find_accept(&mut self)
        ensures
            post_find_accept(*old(self), *final(self)),
            old(self).wf() ==> final(self).wf(),
    {
        let path = match self.find_current() {
            Some(e) => Some(e.path.clone()),
            None => None,
        };
        if let Some(p) = path {
            self.selected = Some(p);
            self.should_quit = true;
        }
    }
}

/// Find mode reads at most this many levels below its root.
pub const FIND_MAX_DEPTH: usize = 12;

/// Find mode stops after this many directories.
pub const FIND_LIMIT: usize = 20_000;

/// What to do once a directory listing has been read again.
pub enum AfterReload {
    Nothing,
    /// Put the cursor on the entry with this name, if it is listed.
    Reselect(String),
    /// Report whether hidden entries are shown.
    ReportHidden,
}

/// Work that a transition leaves to the program.
pub enum Action {
    Nothing,
    /// Read the current directory (honouring `show_hidden`) and hand the
    /// listing to [`App::finish_reload`] with this follow-up.
    Reload(AfterReload),
    /// Run this walk and hand its result to [`App::finish_find`].
    Find(Walk),
    /// Save the store.
    Save,
}

/// The jump-list entry of a ranked directory: shown by its path.
pub open spec fn jump_entry_of(d: RankedDir) -> JumpEntry {
    JumpEntry { path: d.path, display: d.path, bookmarked: d.bookmarked }
}

/// The find-list entry of a found directory: shown by its relative path.
pub open spec fn find_entry_of(d: FoundDir) -> FindEntry {
    FindEntry { path: d.path, display: d.rel }
}

/// The strings the jump list is filtered on.
pub open spec fn jump_names(es: Seq<JumpEntry>) -> Seq<String> {
    es.map_values(|e: JumpEntry| e.display)
}

/// The strings the find list is filtered on.
pub open spec fn find_names(es: Seq<FindEntry>) -> Seq<String> {
    es.map_values(|e: FindEntry| e.display)
}

/// The status line after a walk that found `n` directories under `root`.
pub open spec fn find_status(n: nat, truncated: bool, root: Seq<char>) -> Seq<char> {
    if truncated {
        "found "@ + decimal(n) + "+ dirs (capped) under "@ + root
    } else {
        "found "@ + decimal(n) + " dirs under "@ + root
    }
}

/// The `k`-th item of the browse list is the entry named `name`.
pub open spec fn named_at(entries: Seq<Entry>, filtered: Seq<usize>, k: int, name: Seq<char>) -> bool {
    0 <= k < filtered.len() && filtered[k] < entries.len() && entries[filtered[k] as int].name@ == name
}

/// The first position of the browse list whose entry is named `name`.
pub open spec fn first_named(entries: Seq<Entry>, filtered: Seq<usize>, name: Seq<char>) -> Option<int> {
    if exists|k: int| named_at(entries, filtered, k, name) {
        Some(choose|k: int| named_at(entries, filtered, k, name) && forall|j: int| 0 <= j < k ==> !#[trigger] named_at(entries, filtered, j, name))
    } else {
        None
    }
}

proof fn lemma_first_named(entries: Seq<Entry>, filtered: Seq<usize>, name: Seq<char>, k: int)
    requires
        named_at(entries, filtered, k, name),
        forall|j: int| 0 <= j < k ==> !#[trigger] named_at(entries, filtered, j, name),
    ensures
        first_named(entries, filtered, name) == Some(k),
{
    let c = choose|c: int| named_at(entries, filtered, c, name) && forall|j: int| 0 <= j < c ==> !#[trigger] named_at(entries, filtered, j, name);
    assert(named_at(entries, filtered, c, name));
    if c < k {
    } else if c > k {
        assert(!named_at(entries, filtered, k, name));
    }
}

proof fn lemma_first_named_some(entries: Seq<Entry>, filtered: Seq<usize>, name: Seq<char>)
    ensures
        first_named(entries, filtered, name) matches Some(k) ==> named_at(entries, filtered, k, name),
{
    if exists|k: int| named_at(entries, filtered, k, name) {
        let w = choose|k: int| named_at(entries, filtered, k, name);
        lemma_least_named(entries, filtered, name, w);
    }
}

proof fn lemma_least_named(entries: Seq<Entry>, filtered: Seq<usize>, name: Seq<char>, w: int)
    requires
        named_at(entries, filtered, w, name),
    ensures
        exists|k: int| named_at(entries, filtered, k, name) && forall|j: int| 0 <= j < k ==> !#[trigger] named_at(entries, filtered, j, name),
    decreases w,
{
    if exists|j: int| 0 <= j < w && named_at(entries, filtered, j, name) {
        let j = choose|j: int| 0 <= j < w && named_at(entries, filtered, j, name);
        lemma_least_named(entries, filtered, name, j);
    } else {
        assert(named_at(entries, filtered, w, name) && forall|j: int| 0 <= j < w ==> !#[trigger] named_at(entries, filtered, j, name));
    }
}

proof fn lemma_first_named_none(entries: Seq<Entry>, filtered: Seq<usize>, name: Seq<char>)
    requires
        forall|j: int| 0 <= j < filtered.len() ==> !#[trigger] named_at(entries, filtered, j, name),
    ensures
        first_named(entries, filtered, name) is None,
{
    if exists|k: int| named_at(entries, filtered, k, name) {
        let k = choose|k: int| named_at(entries, filtered, k, name);
        assert(!named_at(entries, filtered, k, name));
    }
}

/// `ascend_to` took `old` to `new` given the parent and own name of the
/// current directory, returning `r`.
pub open spec fn ascent(old: App, new: App, parent: Option<Seq<char>>, child: Option<Seq<char>>, parent_is_cwd: bool, r: Action) -> bool {
    match parent {
        Some(p) if !parent_is_cwd => {
            &&& new.query@.len() == 0
            &&& new.cwd@ == p
            &&& new == (App { cwd: new.cwd, query: new.query, cursor: 0, ..old })
            &&& match child {
                Some(name) => r matches Action::Reload(AfterReload::Reselect(n)) && n@ == name,
                None => r matches Action::Reload(AfterReload::Nothing),
            }
        },
        _ => r matches Action::Nothing && new == old,
    }
}

/// `ascend` took `old` to `new`: up to the parent of the current
/// directory, re-selecting the current directory's own name, unless the
/// current directory has no parent or its parent is the same path.
pub open spec fn post_ascend(old: App, new: App, r: Action) -> bool {
    ascent(
        old,
        new,
        parent_of(old.cwd@),
        file_name_of(old.cwd@),
        parent_of(old.cwd@) matches Some(p) && paths_equal(p, old.cwd@),
        r,
    )
}

/// A name made only of ASCII letters, digits, `_` and `-`: a single
/// relative component on every platform.
pub open spec fn plain_name(s: Seq<char>) -> bool {
    s.len() > 0 && forall|i: int| 0 <= i < s.len() ==> {
        let c = #[trigger] s[i];
        ('a' <= c && c <= 'z') || ('A' <= c && c <= 'Z') || ('0' <= c && c <= '9') || c == '_' || c == '-'
    }
}

/// The parent of a path (`Path::parent`), as a string.
pub uninterp spec fn parent_of(path: Seq<char>) -> Option<Seq<char>>;

/// The last component of a path (`Path::file_name`), as a string.
pub uninterp spec fn file_name_of(path: Seq<char>) -> Option<Seq<char>>;

/// Whether two paths are equal component by component (`Path == Path`).
pub uninterp spec fn paths_equal(a: Seq<char>, b: Seq<char>) -> bool;

/// `Path::parent`, as a string: the path without its last component, a
/// function of the path alone. It is a strict prefix of the path (a slice
/// of it from the start); the empty path and the root `/` have none; a
/// single plain component has the empty path as parent.
#[verifier::external_body]
fn path_parent(path: &str) -> (r: Option<String>)
    ensures
        opt_view(r) == parent_of(path@),
        r is Some ==> r->0@.len() < path@.len() && r->0@ == path@.take(r->0@.len() as int),
        path@.len() == 0 ==> r is None,
        path@ == "/"@ ==> r is None,
        plain_name(path@) ==> r is Some && r->0@.len() == 0,
{
    std::path::Path::new(path).parent().map(|p| p.to_string_lossy().into_owned())
}

/// `Path::file_name`, as a string: the last component of a path, a
/// function of the path alone. It is a non-empty part of the path; the
/// root `/` has none; a single plain component is its own file name.
#[verifier::external_body]
fn path_file_name(path: &str) -> (r: Option<String>)
    ensures
        opt_view(r) == file_name_of(path@),
        r is Some ==> r->0@.len() > 0 && crate::text::contains_seq(path@, r->0@),
        path@ == "/"@ ==> r is None,
        plain_name(path@) ==> r is Some && r->0@ == path@,
{
    std::path::Path::new(path).file_name().map(|n| n.to_string_lossy().into_owned())
}

/// `Path == Path`: whether two paths are equal component by component, a
/// function of the two strings alone; equal strings always name equal
/// paths.
#[verifier::external_body]
fn same_path(a: &str, b: &str) -> (r: bool)
    ensures
        r == paths_equal(a@, b@),
        a@ == b@ ==> r,
{
    std::path::Path::new(a) == std::path::Path::new(b)
}

/// The cursor `cursor` moved by `delta` within `len` items.
fn move_within(cursor: usize, delta: isize, len: usize) -> (r: usize)
    ensures
        r == moved(cursor, delta, len as nat),
        len > 0 ==> r < len,
{
    if len == 0 {
        return cursor;
    }
    let next: i128 = cursor as i128 + delta as i128;
    if next < 0 {
        0
    } else if next >= len as i128 {
        len - 1
    } else {
        next as usize
    }
}

proof fn lemma_filter_indices(items: Seq<String>, query: Seq<char>, r: Seq<usize>)
    requires
        filter_result(items, query, r),
    ensures
        indices_ok(r, items.len()),
{
    if query.len() == 0 {
        assert forall|k: int| 0 <= k < r.len() implies #[trigger] r[k] < items.len() by {
            assert(r[k] == k as usize);
        }
    }
}

/// The browse list refiltered with the current query.
pub open spec fn post_apply_filter(old: App, new: App) -> bool {
    &&& filter_result(entry_names(old.entries@), old.query@, new.filtered@)
    &&& new == (App { filtered: new.filtered, cursor: clamped(old.cursor, new.filtered@.len()), ..old })
}

/// The browse cursor moved by `delta`.
pub open spec fn post_move_cursor(old: App, new: App, delta: isize) -> bool {
    &&& new == (App { cursor: moved(old.cursor, delta, old.filtered@.len()), ..old })
}

/// `descend` entered the highlighted directory, or did nothing.
pub open spec fn post_descend(old: App, new: App, r: Action) -> bool {
    &&& old.highlights_dir() ==> {
        &&& r matches Action::Reload(AfterReload::Nothing)
        &&& new.query@.len() == 0
        &&& new == (App {
            cwd: old.target_dir(),
            query: new.query,
            cursor: 0,
            ..old
        })
    }
    &&& !old.highlights_dir() ==> (r matches Action::Nothing && new == old)
}

/// The highlighted directory, or the current one, accepted.
pub open spec fn post_accept(old: App, new: App) -> bool {
    &&& new == (App { selected: Some(old.target_dir()), should_quit: true, ..old })
}

/// Hidden entries toggled, with a reload to follow.
pub open spec fn post_toggle_hidden(old: App, new: App, r: Action) -> bool {
    &&& r matches Action::Reload(AfterReload::ReportHidden)
    &&& new == (App { show_hidden: !old.show_hidden, ..old })
}

/// The target directory's bookmark flipped and reported.
pub open spec fn post_bookmark(old: App, new: App, r: Action) -> bool {
    &&& r matches Action::Save
    &&& new.store@ == old.store@.insert(old.target_dir()@,
        crate::store::toggled(crate::store::record_or_default(old.store@, old.target_dir()@)))
    &&& new.status matches Some(st) && st@ == (if crate::store::record_or_default(old.store@, old.target_dir()@).bookmarked {
        "un-bookmarked "@
    } else {
        "bookmarked "@
    }) + old.target_dir()@
    &&& new == (App { store: new.store, status: new.status, ..old })
}

/// Jump mode entered with the ranked jump list.
pub open spec fn post_enter_jump(old: App, new: App) -> bool {
    &&& exists|now: u64, present: Seq<bool>, rs: Seq<RankedDir>|
        clock_reading(now)
        && present.len() == old.store.entry_seq().len()
        && (forall|j: int| 0 <= j < present.len() ==> #[trigger] dir_reading(old.store.entry_seq()[j].0@, present[j]))
        && #[trigger] ranked_result(old.store.entry_seq(), now, present, rs)
        && new.jump_entries@ == rs.map_values(|d: RankedDir| jump_entry_of(d))
    &&& new.jump_query@.len() == 0
    &&& filter_result(jump_names(new.jump_entries@), new.jump_query@, new.jump_filtered@)
    &&& new.jump_entries@.len() == 0 ==> (new.status matches Some(st)
        && st@ == "no frecent/bookmarked dirs yet — accept some first"@)
    &&& new.jump_entries@.len() > 0 ==> new.status == old.status
    &&& new == (App {
        mode: Mode::Jump,
        jump_query: new.jump_query,
        jump_cursor: 0,
        jump_entries: new.jump_entries,
        jump_filtered: new.jump_filtered,
        status: new.status,
        ..old
    })
}

/// Back to browsing from jump mode.
pub open spec fn post_exit_jump(old: App, new: App) -> bool {
    &&& new == (App { mode: Mode::Browse, status: None, ..old })
}

/// The jump list refiltered with the jump query.
pub open spec fn post_jump_apply_filter(old: App, new: App) -> bool {
    &&& filter_result(jump_names(old.jump_entries@), old.jump_query@, new.jump_filtered@)
    &&& new == (App {
        jump_filtered: new.jump_filtered,
        jump_cursor: clamped(old.jump_cursor, new.jump_filtered@.len()),
        ..old
    })
    &&& indices_ok(new.jump_filtered@, new.jump_entries@.len())
    &&& cursor_ok(new.jump_cursor, new.jump_filtered@.len())
}

/// The jump cursor moved by `delta`.
pub open spec fn post_jump_move(old: App, new: App, delta: isize) -> bool {
    &&& new == (App { jump_cursor: moved(old.jump_cursor, delta, old.jump_filtered@.len()), ..old })
}

/// The highlighted jump entry accepted, if any.
pub open spec fn post_jump_accept(old: App, new: App) -> bool {
    &&& match old.jump_index() {
        Some(i) => new == (App { selected: Some(old.jump_entries@[i].path), should_quit: true, ..old }),
        None => new == old,
    }
}

/// Find mode entered, with the walk to run.
pub open spec fn post_enter_find(old: App, new: App, r: Action) -> bool {
    &&& r matches Action::Find(w) && w.state().0.len() == 1 && w.state().0[0].0@ == old.cwd@
        && w.state().0[0].1 == 0 && w.state().1.len() == 0 && !w.state().2
        && w.show_hidden() == old.show_hidden && w.max_depth() == FIND_MAX_DEPTH && w.limit() == FIND_LIMIT
    &&& new.find_query@.len() == 0
    &&& new == (App {
        mode: Mode::Find,
        find_query: new.find_query,
        find_cursor: 0,
        find_root: old.cwd,
        ..old
    })
}

/// Back to browsing from find mode.
pub open spec fn post_exit_find(old: App, new: App) -> bool {
    &&& new == (App { mode: Mode::Browse, status: None, ..old })
}

/// The find list refiltered with the find query.
pub open spec fn post_find_apply_filter(old: App, new: App) -> bool {
    &&& filter_result(find_names(old.find_entries@), old.find_query@, new.find_filtered@)
    &&& new == (App {
        find_filtered: new.find_filtered,
        find_cursor: clamped(old.find_cursor, new.find_filtered@.len()),
        ..old
    })
    &&& indices_ok(new.find_filtered@, new.find_entries@.len())
    &&& cursor_ok(new.find_cursor, new.find_filtered@.len())
}

/// The find cursor moved by `delta`.
pub open spec fn post_find_move(old: App, new: App, delta: isize) -> bool {
    &&& new == (App { find_cursor: moved(old.find_cursor, delta, old.find_filtered@.len()), ..old })
}

/// The highlighted find entry accepted, if any.
pub open spec fn post_find_accept(old: App, new: App) -> bool {
    &&& match old.find_index() {
        Some(i) => new == (App { selected: Some(old.find_entries@[i].path), should_quit: true, ..old }),
        None => new == old,
    }
}

} // verus!
