//! What the screen shows, as text: the rows of each list, the info panel,
//! the list titles, the query line and the footer. Drawing them with
//! colours on a terminal is left to the program.

use vstd::prelude::*;
use vstd::string::*;
use crate::app::{indices_ok, App, Mode};
use crate::fs::{elapsed_reading, human_size, human_size_text, human_time_ago, time_ago_text, Entry};
use crate::text::{append_str, decimal, decimal_string};

verus! {

/// One row of the browse list.
pub struct BrowseRow {
    /// `"▸ "` for a directory, two spaces for a file.
    pub icon: &'static str,
    /// The name, with a trailing `/` for a directory.
    pub name: String,
    pub is_dir: bool,
    /// Hidden entries are drawn dimmed.
    pub is_hidden: bool,
    /// A bookmarked entry carries a star.
    pub bookmarked: bool,
}

/// The text of the browse row for `e`.
pub open spec fn row_name(e: Entry) -> Seq<char> {
    if e.is_dir { e.name@.push('/') } else { e.name@ }
}

/// The browse row for `e`, given whether its path is bookmarked.
pub open spec fn browse_row_of(e: Entry, bookmarked: bool, row: BrowseRow) -> bool {
    &&& row.icon@ == (if e.is_dir { "▸ "@ } else { "  "@ })
    &&& row.name@ == row_name(e)
    &&& row.is_dir == e.is_dir
    &&& row.is_hidden == e.is_hidden
    &&& row.bookmarked == bookmarked
}

/// The path of `e` is bookmarked in the explorer's store.
pub open spec fn is_bookmarked_in(app: App, path: Seq<char>) -> bool {
    app.store@.contains_key(path) && app.store@[path].bookmarked
}

/// The rows of the browse list, in list order.
pub fn browse_rows(app: &App) -> (rows: Vec<BrowseRow>)
    requires
        indices_ok(app.filtered@, app.entries@.len()),
    ensures
        rows@.len() == app.filtered@.len(),
        forall|k: int| 0 <= k < rows@.len() ==> {
            let e = app.entries@[app.filtered@[k] as int];
            browse_row_of(e, is_bookmarked_in(*app, e.path@), #[trigger] rows@[k])
        },
{
    let mut rows: Vec<BrowseRow> = Vec::new();
    let mut k: usize = 0;
    while k < app.filtered.len()
        invariant
            indices_ok(app.filtered@, app.entries@.len()),
            k <= app.filtered@.len(),
            rows@.len() == k,
            forall|j: int| 0 <= j < k ==> {
                let e = app.entries@[app.filtered@[j] as int];
                browse_row_of(e, is_bookmarked_in(*app, e.path@), #[trigger] rows@[j])
            },
        decreases app.filtered@.len() - k,
    {
        let e = &app.entries[app.filtered[k]];
        let mut name = e.name.clone();
        if e.is_dir {
            crate::text::push_char(&mut name, '/');
        }
        let bookmarked = app.store.is_bookmarked(e.path.as_str());
        rows.push(BrowseRow {
            icon: if e.is_dir { "▸ " } else { "  " },
            name,
            is_dir: e.is_dir,
            is_hidden: e.is_hidden,
            bookmarked,
        });
        k = k + 1;
    }
    rows
}

/// One row of the jump list: the path, starred when bookmarked.
pub struct JumpRow {
    pub text: String,
    pub bookmarked: bool,
}

/// The rows of the jump list, in list order.
pub fn jump_rows(app: &App) -> (rows: Vec<JumpRow>)
    requires
        indices_ok(app.jump_filtered@, app.jump_entries@.len()),
    ensures
        rows@.len() == app.jump_filtered@.len(),
        forall|k: int| 0 <= k < rows@.len() ==> {
            let e = app.jump_entries@[app.jump_filtered@[k] as int];
            &&& (#[trigger] rows@[k]).text == e.display
            &&& rows@[k].bookmarked == e.bookmarked
        },
{
    let mut rows: Vec<JumpRow> = Vec::new();
    let mut k: usize = 0;
    while k < app.jump_filtered.len()
        invariant
            indices_ok(app.jump_filtered@, app.jump_entries@.len()),
            k <= app.jump_filtered@.len(),
            rows@.len() == k,
            forall|j: int| 0 <= j < k ==> {
                let e = app.jump_entries@[app.jump_filtered@[j] as int];
                &&& (#[trigger] rows@[j]).text == e.display
                &&& rows@[j].bookmarked == e.bookmarked
            },
        decreases app.jump_filtered@.len() - k,
    {
        let e = &app.jump_entries[app.jump_filtered[k]];
        rows.push(JumpRow { text: e.display.clone(), bookmarked: e.bookmarked });
        k = k + 1;
    }
    rows
}

/// One row of the find list: the relative path, starred when bookmarked.
pub struct FindRow {
    pub text: String,
    pub bookmarked: bool,
}

/// The rows of the find list, in list order.
pub fn find_rows(app: &App) -> (rows: Vec<FindRow>)
    requires
        indices_ok(app.find_filtered@, app.find_entries@.len()),
    ensures
        rows@.len() == app.find_filtered@.len(),
        forall|k: int| 0 <= k < rows@.len() ==> {
            let e = app.find_entries@[app.find_filtered@[k] as int];
            &&& (#[trigger] rows@[k]).text == e.display
            &&& rows@[k].bookmarked == is_bookmarked_in(*app, e.path@)
        },
{
    let mut rows: Vec<FindRow> = Vec::new();
    let mut k: usize = 0;
    while k < app.find_filtered.len()
        invariant
            indices_ok(app.find_filtered@, app.find_entries@.len()),
            k <= app.find_filtered@.len(),
            rows@.len() == k,
            forall|j: int| 0 <= j < k ==> {
                let e = app.find_entries@[app.find_filtered@[j] as int];
                &&& (#[trigger] rows@[j]).text == e.display
                &&& rows@[j].bookmarked == is_bookmarked_in(*app, e.path@)
            },
        decreases app.find_filtered@.len() - k,
    {
        let e = &app.find_entries[app.find_filtered[k]];
        let bookmarked = app.store.is_bookmarked(e.path.as_str());
        rows.push(FindRow { text: e.display.clone(), bookmarked });
        k = k + 1;
    }
    rows
}

/// The title of a list of `n` items counted as `noun`: `" 12 items "`.
pub fn list_title(n: usize, noun: &str) -> (r: String)
    ensures
        r@ == " "@ + decimal(n as nat) + " "@ + noun@ + " "@,
{
    let mut r = String::from_str(" ");
    let d = decimal_string(n as u64);
    append_str(&mut r, d.as_str());
    append_str(&mut r, " ");
    append_str(&mut r, noun);
    append_str(&mut r, " ");
    r
}

/// Which row of a list of `len` items is highlighted: the cursor, unless
/// the list is empty.
pub fn selected_row(len: usize, cursor: usize) -> (r: Option<usize>)
    ensures
        r == (if len == 0 { None } else { Some(cursor) }),
{
    if len == 0 { None } else { Some(cursor) }
}

/// The placeholder shown after the caret of an empty query line:
/// two spaces and the hint; nothing once something is typed.
pub fn query_placeholder(query: &str, hint: &str) -> (r: Option<String>)
    ensures
        query@.len() == 0 ==> (r matches Some(p) && p@ == "  "@ + hint@),
        query@.len() > 0 ==> r is None,
{
    if query.unicode_len() == 0 {
        let mut p = String::from_str("  ");
        append_str(&mut p, hint);
        Some(p)
    } else {
        None
    }
}

/// A line of the info panel.
pub enum InfoLine {
    /// The panel of an empty list: just `"empty"`.
    Empty,
    /// The highlighted entry's name, in bold.
    Title(String),
    /// `"directory"` or `"file"`, dimmed.
    Kind(&'static str),
    Blank,
    /// `key: value`.
    Field(&'static str, String),
    /// `"★ bookmarked"`.
    Bookmarked,
}

/// What the info panel shows for the highlighted entry `e`: its name, its
/// kind, a blank line, the number of items (`?` when they cannot be
/// counted) of a directory or the size of a file, the age of its last
/// modification if known, and whether it is bookmarked.
pub open spec fn info_shape(e: Entry, child_count: Option<usize>, bookmarked: bool, lines: Seq<InfoLine>) -> bool {
    let base = if e.modified is Some { 5int } else { 4int };
    &&& lines.len() == if bookmarked { base + 1 } else { base }
    &&& lines[0] matches InfoLine::Title(n) && n == e.name
    &&& lines[1] matches InfoLine::Kind(k) && k@ == (if e.is_dir { "directory"@ } else { "file"@ })
    &&& lines[2] is Blank
    &&& (if e.is_dir {
        lines[3] matches InfoLine::Field(key, v) && key@ == "items"@ && v@ == match child_count {
            Some(c) => decimal(c as nat),
            None => "?"@,
        }
    } else {
        lines[3] matches InfoLine::Field(key, v) && key@ == "size"@ && v@ == human_size_text(e.size)
    })
    &&& e.modified is Some ==> (lines[4] matches InfoLine::Field(key, v) && key@ == "modified"@
        && exists|secs: u64| elapsed_reading(e.modified->0, secs) && v@ == #[trigger] time_ago_text(secs))
    &&& bookmarked ==> lines.last() is Bookmarked
}

/// The info panel for the highlighted entry. `child_count` is the number
/// of items in the highlighted entry when it is a directory that could be
/// read.
pub fn info_lines(app: &App, child_count: Option<usize>) -> (lines: Vec<InfoLine>)
    ensures
        match app.current_index() {
            None => lines@.len() == 1 && lines@[0] is Empty,
            Some(i) => info_shape(app.entries@[i], child_count, is_bookmarked_in(*app, app.entries@[i].path@), lines@),
        },
{
    let e = match app.current_entry() {
        None => {
            let mut lines: Vec<InfoLine> = Vec::new();
            lines.push(InfoLine::Empty);
            return lines;
        },
        Some(e) => e,
    };
    let mut lines: Vec<InfoLine> = Vec::new();
    lines.push(InfoLine::Title(e.name.clone()));
    lines.push(InfoLine::Kind(if e.is_dir { "directory" } else { "file" }));
    lines.push(InfoLine::Blank);
    if e.is_dir {
        let n = match child_count {
            Some(c) => decimal_string(c as u64),
            None => String::from_str("?"),
        };
        lines.push(InfoLine::Field("items", n));
    } else {
        lines.push(InfoLine::Field("size", human_size(e.size)));
    }
    if let Some(m) = e.modified {
        lines.push(InfoLine::Field("modified", human_time_ago(m)));
    }
    if app.store.is_bookmarked(e.path.as_str()) {
        lines.push(InfoLine::Bookmarked);
    }
    lines
}

/// The key help of each mode.
pub open spec fn help_text(mode: Mode) -> Seq<char> {
    match mode {
        Mode::Browse => "↑↓ move  ⏎ cd here  → open  ← up  ^S find  ^F jump  ^A hidden  ^B bookmark  esc quit"@,
        Mode::Jump => "↑↓ move  ⏎ cd  esc back  ^F browse"@,
        Mode::Find => "↑↓ move  ⏎ cd  esc back  ^S browse"@,
    }
}

/// The footer: the status line if there is one (drawn highlighted,
/// `true`), otherwise the key help of the mode (dimmed, `false`).
pub fn footer(app: &App) -> (r: (String, bool))
    ensures
        match app.status {
            Some(s) => r.0@ == s@ && r.1,
            None => r.0@ == help_text(app.mode) && !r.1,
        },
{
    match &app.status {
        Some(s) => (s.clone(), true),
        None => {
            let help = match app.mode {
                Mode::Browse => "↑↓ move  ⏎ cd here  → open  ← up  ^S find  ^F jump  ^A hidden  ^B bookmark  esc quit",
                Mode::Jump => "↑↓ move  ⏎ cd  esc back  ^F browse",
                Mode::Find => "↑↓ move  ⏎ cd  esc back  ^S browse",
            };
            (String::from_str(help), false)
        },
    }
}

} // verus!
