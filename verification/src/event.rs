//! Keymap: turn key presses into [`App`] transitions.
//!
//! Because typing filters the list (fzf-style), all printable characters
//! feed the query. Commands are therefore bound to Ctrl-chords and the
//! arrow keys.

use vstd::prelude::*;
use vstd::string::*;
use crate::app::{
    post_ascend, entry_names, find_names, jump_names, post_accept, post_bookmark, post_descend, post_enter_find,
    post_enter_jump, post_exit_find, post_exit_jump, post_find_accept, post_find_move, post_jump_accept,
    post_jump_move, post_move_cursor, post_toggle_hidden, moved, Action, App, Mode,
};
use crate::fuzzy::filter_result;
use crate::text::{pop_char, push_char};

verus! {

/// The keys the explorer tells apart.
#[derive(PartialEq, Eq, Structural, Clone, Copy, Debug)]
pub enum KeyCode {
    Esc,
    Enter,
    Up,
    Down,
    PageUp,
    PageDown,
    Left,
    Right,
    Tab,
    Backspace,
    Char(char),
    /// Any other key.
    Other,
}

/// A key press: the key and whether Ctrl was held.
#[derive(PartialEq, Eq, Structural, Clone, Copy, Debug)]
pub struct Key {
    pub code: KeyCode,
    pub ctrl: bool,
}

/// What a key press asks for.
#[derive(PartialEq, Eq, Structural, Clone, Copy, Debug)]
pub enum Command {
    /// Quit with no selection.
    Cancel,
    Accept,
    Move(isize),
    Descend,
    Ascend,
    /// Delete the last query character, or go up when the query is empty.
    Backspace,
    ToggleHidden,
    Bookmark,
    EnterJump,
    EnterFind,
    ClearQuery,
    Type(char),
    ExitJump,
    JumpAccept,
    JumpMove(isize),
    JumpBackspace,
    JumpClear,
    JumpType(char),
    ExitFind,
    FindAccept,
    FindMove(isize),
    FindBackspace,
    FindClear,
    FindType(char),
    /// The key does nothing here.
    Ignore,
}

/// The browse-mode keymap.
pub open spec fn browse_command(key: Key) -> Command {
    match key.code {
        KeyCode::Esc => Command::Cancel,
        KeyCode::Enter => Command::Accept,
        KeyCode::Up => Command::Move(-1isize),
        KeyCode::Down => Command::Move(1isize),
        KeyCode::PageUp => Command::Move(-10isize),
        KeyCode::PageDown => Command::Move(10isize),
        KeyCode::Right | KeyCode::Tab => Command::Descend,
        KeyCode::Left => Command::Ascend,
        KeyCode::Backspace => Command::Backspace,
        KeyCode::Char(c) => {
            if key.ctrl {
                if c == 'p' { Command::Move(-1isize) }
                else if c == 'n' { Command::Move(1isize) }
                else if c == 'a' { Command::ToggleHidden }
                else if c == 'b' { Command::Bookmark }
                else if c == 'f' { Command::EnterJump }
                else if c == 's' { Command::EnterFind }
                else if c == 'u' { Command::ClearQuery }
                else { Command::Ignore }
            } else {
                Command::Type(c)
            }
        },
        KeyCode::Other => Command::Ignore,
    }
}

/// The jump-mode keymap.
pub open spec fn jump_command(key: Key) -> Command {
    match key.code {
        KeyCode::Esc => Command::ExitJump,
        KeyCode::Enter => Command::JumpAccept,
        KeyCode::Up => Command::JumpMove(-1isize),
        KeyCode::Down => Command::JumpMove(1isize),
        KeyCode::PageUp => Command::JumpMove(-10isize),
        KeyCode::PageDown => Command::JumpMove(10isize),
        KeyCode::Backspace => Command::JumpBackspace,
        KeyCode::Char(c) => {
            if key.ctrl {
                if c == 'f' { Command::ExitJump }
                else if c == 'p' { Command::JumpMove(-1isize) }
                else if c == 'n' { Command::JumpMove(1isize) }
                else if c == 'u' { Command::JumpClear }
                else { Command::Ignore }
            } else {
                Command::JumpType(c)
            }
        },
        _ => Command::Ignore,
    }
}

/// The find-mode keymap.
pub open spec fn find_command(key: Key) -> Command {
    match key.code {
        KeyCode::Esc => Command::ExitFind,
        KeyCode::Enter => Command::FindAccept,
        KeyCode::Up => Command::FindMove(-1isize),
        KeyCode::Down => Command::FindMove(1isize),
        KeyCode::PageUp => Command::FindMove(-10isize),
        KeyCode::PageDown => Command::FindMove(10isize),
        KeyCode::Backspace => Command::FindBackspace,
        KeyCode::Char(c) => {
            if key.ctrl {
                if c == 's' { Command::ExitFind }
                else if c == 'p' { Command::FindMove(-1isize) }
                else if c == 'n' { Command::FindMove(1isize) }
                else if c == 'u' { Command::FindClear }
                else { Command::Ignore }
            } else {
                Command::FindType(c)
            }
        },
        _ => Command::Ignore,
    }
}

/// The keymap: Ctrl-C cancels everywhere; otherwise the mode's keymap.
pub open spec fn keymap_spec(mode: Mode, key: Key) -> Command {
    if key.ctrl && key.code == KeyCode::Char('c') {
        Command::Cancel
    } else {
        match mode {
            Mode::Browse => browse_command(key),
            Mode::Jump => jump_command(key),
            Mode::Find => find_command(key),
        }
    }
}

/// The command a key press asks for in `mode`.
pub fn keymap(mode: Mode, key: Key) -> (c: Command)
    ensures
        c == keymap_spec(mode, key),
{
    if key.ctrl && key.code == KeyCode::Char('c') {
        return Command::Cancel;
    }
    let ctrl = key.ctrl;
    match mode {
        Mode::Browse => match key.code {
            KeyCode::Esc => Command::Cancel,
            KeyCode::Enter => Command::Accept,
            KeyCode::Up => Command::Move(-1),
            KeyCode::Down => Command::Move(1),
            KeyCode::PageUp => Command::Move(-10),
            KeyCode::PageDown => Command::Move(10),
            KeyCode::Right | KeyCode::Tab => Command::Descend,
            KeyCode::Left => Command::Ascend,
            KeyCode::Backspace => Command::Backspace,
            KeyCode::Char(c) => {
                if ctrl {
                    if c == 'p' { Command::Move(-1) }
                    else if c == 'n' { Command::Move(1) }
                    else if c == 'a' { Command::ToggleHidden }
                    else if c == 'b' { Command::Bookmark }
                    else if c == 'f' { Command::EnterJump }
                    else if c == 's' { Command::EnterFind }
                    else if c == 'u' { Command::ClearQuery }
                    else { Command::Ignore }
                } else {
                    Command::Type(c)
                }
            },
            KeyCode::Other => Command::Ignore,
        },
        Mode::Jump => match key.code {
            KeyCode::Esc => Command::ExitJump,
            KeyCode::Enter => Command::JumpAccept,
            KeyCode::Up => Command::JumpMove(-1),
            KeyCode::Down => Command::JumpMove(1),
            KeyCode::PageUp => Command::JumpMove(-10),
            KeyCode::PageDown => Command::JumpMove(10),
            KeyCode::Backspace => Command::JumpBackspace,
            KeyCode::Char(c) => {
                if ctrl {
                    if c == 'f' { Command::ExitJump }
                    else if c == 'p' { Command::JumpMove(-1) }
                    else if c == 'n' { Command::JumpMove(1) }
                    else if c == 'u' { Command::JumpClear }
                    else { Command::Ignore }
                } else {
                    Command::JumpType(c)
                }
            },
            _ => Command::Ignore,
        },
        Mode::Find => match key.code {
            KeyCode::Esc => Command::ExitFind,
            KeyCode::Enter => Command::FindAccept,
            KeyCode::Up => Command::FindMove(-1),
            KeyCode::Down => Command::FindMove(1),
            KeyCode::PageUp => Command::FindMove(-10),
            KeyCode::PageDown => Command::FindMove(10),
            KeyCode::Backspace => Command::FindBackspace,
            KeyCode::Char(c) => {
                if ctrl {
                    if c == 's' { Command::ExitFind }
                    else if c == 'p' { Command::FindMove(-1) }
                    else if c == 'n' { Command::FindMove(1) }
                    else if c == 'u' { Command::FindClear }
                    else { Command::Ignore }
                } else {
                    Command::FindType(c)
                }
            },
            _ => Command::Ignore,
        },
    }
}

/// `q` without its last character (unchanged when empty).
pub open spec fn without_last(q: Seq<char>) -> Seq<char> {
    if q.len() == 0 { q } else { q.drop_last() }
}

/// The browse query replaced by `q`, the cursor back at the top, and the
/// list refiltered.
pub open spec fn post_requery(old: App, new: App, q: Seq<char>) -> bool {
    &&& new.query@ == q
    &&& filter_result(entry_names(old.entries@), q, new.filtered@)
    &&& new == (App { query: new.query, filtered: new.filtered, cursor: 0, ..old })
}

/// The jump query replaced by `q`, the cursor back at the top, and the
/// jump list refiltered.
pub open spec fn post_jump_requery(old: App, new: App, q: Seq<char>) -> bool {
    &&& new.jump_query@ == q
    &&& filter_result(jump_names(old.jump_entries@), q, new.jump_filtered@)
    &&& new == (App { jump_query: new.jump_query, jump_filtered: new.jump_filtered, jump_cursor: 0, ..old })
}

/// The find query replaced by `q`, the cursor back at the top, and the
/// find list refiltered.
pub open spec fn post_find_requery(old: App, new: App, q: Seq<char>) -> bool {
    &&& new.find_query@ == q
    &&& filter_result(find_names(old.find_entries@), q, new.find_filtered@)
    &&& new == (App { find_query: new.find_query, find_filtered: new.find_filtered, find_cursor: 0, ..old })
}

/// What performing `cmd` does to the explorer, and the work it returns.
pub open spec fn post_command(old: App, new: App, cmd: Command, r: Action) -> bool {
    match cmd {
        Command::Cancel => r is Nothing && new == (App { selected: None, should_quit: true, ..old }),
        Command::Accept => r is Nothing && post_accept(old, new),
        Command::Move(d) => r is Nothing && post_move_cursor(old, new, d),
        Command::Descend => post_descend(old, new, r),
        Command::Ascend => post_ascend(old, new, r),
        Command::Backspace => if old.query@.len() == 0 {
            post_ascend(old, new, r)
        } else {
            r is Nothing && post_requery(old, new, old.query@.drop_last())
        },
        Command::ToggleHidden => post_toggle_hidden(old, new, r),
        Command::Bookmark => post_bookmark(old, new, r),
        Command::EnterJump => r is Nothing && post_enter_jump(old, new),
        Command::EnterFind => post_enter_find(old, new, r),
        Command::ClearQuery => r is Nothing && post_requery(old, new, Seq::empty()),
        Command::Type(c) => r is Nothing && post_requery(old, new, old.query@.push(c)),
        Command::ExitJump => r is Nothing && post_exit_jump(old, new),
        Command::JumpAccept => r is Nothing && post_jump_accept(old, new),
        Command::JumpMove(d) => r is Nothing && post_jump_move(old, new, d),
        Command::JumpBackspace => r is Nothing && post_jump_requery(old, new, without_last(old.jump_query@)),
        Command::JumpClear => r is Nothing && post_jump_requery(old, new, Seq::empty()),
        Command::JumpType(c) => r is Nothing && post_jump_requery(old, new, old.jump_query@.push(c)),
        Command::ExitFind => r is Nothing && post_exit_find(old, new),
        Command::FindAccept => r is Nothing && post_find_accept(old, new),
        Command::FindMove(d) => r is Nothing && post_find_move(old, new, d),
        Command::FindBackspace => r is Nothing && post_find_requery(old, new, without_last(old.find_query@)),
        Command::FindClear => r is Nothing && post_find_requery(old, new, Seq::empty()),
        Command::FindType(c) => r is Nothing && post_find_requery(old, new, old.find_query@.push(c)),
        Command::Ignore => r is Nothing && new == old,
    }
}

/// Performs `cmd` on the explorer; the returned action is the outside work
/// it leaves to the program.
pub fn perform(app: &mut App, cmd: Command) -> (r: Action)
    ensures
        post_command(*old(app), *final(app), cmd, r),
        old(app).wf() ==> final(app).wf(),
{
    match cmd {
        Command::Cancel => {
            app.selected = None;
            app.should_quit = true;
            Action::Nothing
        },
        Command::Accept => {
            app.accept();
            Action::Nothing
        },
        Command::Move(d) => {
            app.move_cursor(d);
            Action::Nothing
        },
        Command::Descend => app.descend(),
        Command::Ascend => app.ascend(),
        Command::Backspace => {
            if app.query.as_str().unicode_len() == 0 {
                app.ascend()
            } else {
                pop_char(&mut app.query);
                app.cursor = 0;
                app.apply_filter();
                Action::Nothing
            }
        },
        Command::ToggleHidden => app.toggle_hidden(),
        Command::Bookmark => app.bookmark_current(),
        Command::EnterJump => {
            app.enter_jump_mode();
            Action::Nothing
        },
        Command::EnterFind => app.enter_find_mode(),
        Command::ClearQuery => {
            app.query = String::new();
            app.cursor = 0;
            app.apply_filter();
            Action::Nothing
        },
        Command::Type(c) => {
            push_char(&mut app.query, c);
            app.cursor = 0;
            app.apply_filter();
            Action::Nothing
        },
        Command::ExitJump => {
            app.exit_jump_mode();
            Action::Nothing
        },
        Command::JumpAccept => {
            app.jump_accept();
            Action::Nothing
        },
        Command::JumpMove(d) => {
            app.jump_move(d);
            Action::Nothing
        },
        Command::JumpBackspace => {
            pop_char(&mut app.jump_query);
            app.jump_cursor = 0;
            app.jump_apply_filter();
            Action::Nothing
        },
        Command::JumpClear => {
            app.jump_query = String::new();
            app.jump_cursor = 0;
            app.jump_apply_filter();
            Action::Nothing
        },
        Command::JumpType(c) => {
            push_char(&mut app.jump_query, c);
            app.jump_cursor = 0;
            app.jump_apply_filter();
            Action::Nothing
        },
        Command::ExitFind => {
            app.exit_find_mode();
            Action::Nothing
        },
        Command::FindAccept => {
            app.find_accept();
            Action::Nothing
        },
        Command::FindMove(d) => {
            app.find_move(d);
            Action::Nothing
        },
        Command::FindBackspace => {
            pop_char(&mut app.find_query);
            app.find_cursor = 0;
            app.find_apply_filter();
            Action::Nothing
        },
        Command::FindClear => {
            app.find_query = String::new();
            app.find_cursor = 0;
            app.find_apply_filter();
            Action::Nothing
        },
        Command::FindType(c) => {
            push_char(&mut app.find_query, c);
            app.find_cursor = 0;
            app.find_apply_filter();
            Action::Nothing
        },
        Command::Ignore => Action::Nothing,
    }
}

/// Handles one key press: Ctrl-C always cancels with no selection;
/// otherwise the mode's keymap decides. The returned action is the outside
/// work the transition leaves to the program.
pub fn handle(app: &mut App, key: Key) -> (r: Action)
    ensures
        post_command(*old(app), *final(app), keymap_spec(old(app).mode, key), r),
        old(app).wf() ==> final(app).wf(),
{
    let cmd = keymap(app.mode, key);
    perform(app, cmd)
}


/// Ctrl-C cancels in every mode: whatever was highlighted, the explorer
/// quits with no selection and leaves no work behind.
pub proof fn lemma_ctrl_c_cancels(old: App, new: App, r: Action)
    requires
        post_command(old, new, keymap_spec(old.mode, Key { code: KeyCode::Char('c'), ctrl: true }), r),
    ensures
        new.selected is None,
        new.should_quit,
        r is Nothing,
{
}

/// Esc quits with no selection while browsing, and goes back to browsing
/// (clearing the status line) from jump and find mode.
pub proof fn lemma_esc(old: App, new: App, r: Action)
    requires
        post_command(old, new, keymap_spec(old.mode, Key { code: KeyCode::Esc, ctrl: false }), r),
    ensures
        r is Nothing,
        old.mode == Mode::Browse ==> new.selected is None && new.should_quit,
        old.mode != Mode::Browse ==> new.mode == Mode::Browse && new.status is None && !new.should_quit == !old.should_quit,
{
}

/// A printable key typed without Ctrl extends the active query by that
/// character, puts the cursor back at the top and refilters; Backspace then
/// restores the query exactly.
pub proof fn lemma_type_then_backspace(a: App, b: App, c: App, ch: char, r1: Action, r2: Action)
    requires
        a.mode == Mode::Browse,
        post_command(a, b, keymap_spec(a.mode, Key { code: KeyCode::Char(ch), ctrl: false }), r1),
        post_command(b, c, keymap_spec(b.mode, Key { code: KeyCode::Backspace, ctrl: false }), r2),
    ensures
        b.query@ == a.query@.push(ch),
        b.cursor == 0,
        c.query@ == a.query@,
        c.cwd == a.cwd,
        c.cursor == 0,
        r1 is Nothing && r2 is Nothing,
{
    assert(b.query@.len() > 0);
    assert(b.query@.drop_last() =~= a.query@);
}

/// Moving a cursor never leaves its list: on a non-empty list it stays on
/// an item, and it stops at either end.
pub proof fn lemma_move_stays_in_list(cursor: usize, delta: isize, len: nat)
    requires
        0 < len <= usize::MAX,
    ensures
        moved(cursor, delta, len) < len,
        cursor + delta <= 0 ==> moved(cursor, delta, len) == 0,
        cursor + delta >= len - 1 ==> moved(cursor, delta, len) == len - 1,
{
}

/// The command that moves the cursor of `mode`'s list by `delta` rows.
pub open spec fn move_in(mode: Mode, delta: isize) -> Command {
    match mode {
        Mode::Browse => Command::Move(delta),
        Mode::Jump => Command::JumpMove(delta),
        Mode::Find => Command::FindMove(delta),
    }
}

/// The command that accepts the highlighted row of `mode`'s list.
pub open spec fn accept_in(mode: Mode) -> Command {
    match mode {
        Mode::Browse => Command::Accept,
        Mode::Jump => Command::JumpAccept,
        Mode::Find => Command::FindAccept,
    }
}

/// The command that types `c` into `mode`'s query.
pub open spec fn type_in(mode: Mode, c: char) -> Command {
    match mode {
        Mode::Browse => Command::Type(c),
        Mode::Jump => Command::JumpType(c),
        Mode::Find => Command::FindType(c),
    }
}

/// The keys every mode shares: Up and Ctrl-P move one row up, Down and
/// Ctrl-N one row down, Page Up and Page Down ten rows (with or without
/// Ctrl for the arrows and pages), Enter accepts, a plain character is
/// typed into the query, and Ctrl-C cancels.
pub proof fn lemma_keymap_shared_keys(mode: Mode, ctrl: bool, c: char)
    ensures
        keymap_spec(mode, Key { code: KeyCode::Up, ctrl }) == move_in(mode, -1isize),
        keymap_spec(mode, Key { code: KeyCode::Down, ctrl }) == move_in(mode, 1isize),
        keymap_spec(mode, Key { code: KeyCode::PageUp, ctrl }) == move_in(mode, -10isize),
        keymap_spec(mode, Key { code: KeyCode::PageDown, ctrl }) == move_in(mode, 10isize),
        keymap_spec(mode, Key { code: KeyCode::Char('p'), ctrl: true }) == move_in(mode, -1isize),
        keymap_spec(mode, Key { code: KeyCode::Char('n'), ctrl: true }) == move_in(mode, 1isize),
        keymap_spec(mode, Key { code: KeyCode::Enter, ctrl }) == accept_in(mode),
        keymap_spec(mode, Key { code: KeyCode::Char(c), ctrl: false }) == type_in(mode, c),
        keymap_spec(mode, Key { code: KeyCode::Char('c'), ctrl: true }) == Command::Cancel,
{
}

/// The cursor of the list that `app`'s mode shows.
pub open spec fn mode_cursor(app: App) -> int {
    match app.mode {
        Mode::Browse => app.cursor as int,
        Mode::Jump => app.jump_cursor as int,
        Mode::Find => app.find_cursor as int,
    }
}

/// The number of rows of the list that `app`'s mode shows.
pub open spec fn mode_rows(app: App) -> int {
    match app.mode {
        Mode::Browse => app.filtered@.len() as int,
        Mode::Jump => app.jump_filtered@.len() as int,
        Mode::Find => app.find_filtered@.len() as int,
    }
}

/// In every mode, pressing Down moves the highlight one row down and Up
/// one row up, while there is a row to move to; the mode stays.
pub proof fn lemma_arrows_move_highlight(old: App, new: App, r: Action, ctrl: bool)
    ensures
        post_command(old, new, keymap_spec(old.mode, Key { code: KeyCode::Down, ctrl }), r)
            && 0 <= mode_cursor(old) && mode_cursor(old) + 1 < mode_rows(old)
            ==> new.mode == old.mode && mode_cursor(new) == mode_cursor(old) + 1,
        post_command(old, new, keymap_spec(old.mode, Key { code: KeyCode::Up, ctrl }), r)
            && 0 < mode_cursor(old) < mode_rows(old)
            ==> new.mode == old.mode && mode_cursor(new) == mode_cursor(old) - 1,
{
    lemma_keymap_shared_keys(old.mode, ctrl, 'a');
    let down = keymap_spec(old.mode, Key { code: KeyCode::Down, ctrl });
    if post_command(old, new, down, r) && 0 <= mode_cursor(old) && mode_cursor(old) + 1 < mode_rows(old) {
        match old.mode {
            Mode::Browse => {
                assert(post_move_cursor(old, new, 1isize));
                assert(old.filtered@.len() == old.filtered.len());
                assert(moved(old.cursor, 1isize, old.filtered@.len()) == old.cursor + 1);
            },
            Mode::Jump => {
                assert(post_jump_move(old, new, 1isize));
                assert(old.jump_filtered@.len() == old.jump_filtered.len());
                assert(moved(old.jump_cursor, 1isize, old.jump_filtered@.len()) == old.jump_cursor + 1);
            },
            Mode::Find => {
                assert(post_find_move(old, new, 1isize));
                assert(old.find_filtered@.len() == old.find_filtered.len());
                assert(moved(old.find_cursor, 1isize, old.find_filtered@.len()) == old.find_cursor + 1);
            },
        }
    }
}

/// The keys of each mode's own: in browse mode Esc quits, Right and Tab
/// open the highlighted folder, Left goes up, Backspace edits the query (or
/// goes up), and Ctrl-A, Ctrl-B, Ctrl-F, Ctrl-S and Ctrl-U toggle hidden
/// entries, bookmark, open jump mode, open find mode and clear the query;
/// in jump mode Esc and Ctrl-F leave it, in find mode Esc and Ctrl-S leave
/// it, and in both Backspace and Ctrl-U edit their query while Left and
/// Right do nothing.
pub proof fn lemma_keymap_mode_keys(ctrl: bool)
    ensures
        keymap_spec(Mode::Browse, Key { code: KeyCode::Esc, ctrl }) == Command::Cancel,
        keymap_spec(Mode::Browse, Key { code: KeyCode::Right, ctrl }) == Command::Descend,
        keymap_spec(Mode::Browse, Key { code: KeyCode::Tab, ctrl }) == Command::Descend,
        keymap_spec(Mode::Browse, Key { code: KeyCode::Left, ctrl }) == Command::Ascend,
        keymap_spec(Mode::Browse, Key { code: KeyCode::Backspace, ctrl }) == Command::Backspace,
        keymap_spec(Mode::Browse, Key { code: KeyCode::Char('a'), ctrl: true }) == Command::ToggleHidden,
        keymap_spec(Mode::Browse, Key { code: KeyCode::Char('b'), ctrl: true }) == Command::Bookmark,
        keymap_spec(Mode::Browse, Key { code: KeyCode::Char('f'), ctrl: true }) == Command::EnterJump,
        keymap_spec(Mode::Browse, Key { code: KeyCode::Char('s'), ctrl: true }) == Command::EnterFind,
        keymap_spec(Mode::Browse, Key { code: KeyCode::Char('u'), ctrl: true }) == Command::ClearQuery,
        keymap_spec(Mode::Jump, Key { code: KeyCode::Esc, ctrl }) == Command::ExitJump,
        keymap_spec(Mode::Jump, Key { code: KeyCode::Char('f'), ctrl: true }) == Command::ExitJump,
        keymap_spec(Mode::Jump, Key { code: KeyCode::Backspace, ctrl }) == Command::JumpBackspace,
        keymap_spec(Mode::Jump, Key { code: KeyCode::Char('u'), ctrl: true }) == Command::JumpClear,
        keymap_spec(Mode::Jump, Key { code: KeyCode::Left, ctrl }) == Command::Ignore,
        keymap_spec(Mode::Jump, Key { code: KeyCode::Right, ctrl }) == Command::Ignore,
        keymap_spec(Mode::Find, Key { code: KeyCode::Esc, ctrl }) == Command::ExitFind,
        keymap_spec(Mode::Find, Key { code: KeyCode::Char('s'), ctrl: true }) == Command::ExitFind,
        keymap_spec(Mode::Find, Key { code: KeyCode::Backspace, ctrl }) == Command::FindBackspace,
        keymap_spec(Mode::Find, Key { code: KeyCode::Char('u'), ctrl: true }) == Command::FindClear,
        keymap_spec(Mode::Find, Key { code: KeyCode::Left, ctrl }) == Command::Ignore,
        keymap_spec(Mode::Find, Key { code: KeyCode::Right, ctrl }) == Command::Ignore,
{
}

} // verus!
