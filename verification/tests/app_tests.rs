use fzd::app::{Action, AfterReload, App, Mode};
use fzd::event::{handle, keymap, Command, Key, KeyCode};
use fzd::fs::{build_listing, FoundDir, RawEntry};
use fzd::store::{Record, Store};

fn raw(parent: &str, name: &str, is_dir: bool) -> RawEntry {
    RawEntry { name: name.to_string(), path: format!("{parent}/{name}"), is_dir, len: 5, modified: None }
}

fn listing(parent: &str, names: &[(&str, bool)]) -> Result<Vec<fzd::fs::Entry>, String> {
    Ok(build_listing(names.iter().map(|(n, d)| raw(parent, n, *d)).collect(), false))
}

fn key(code: KeyCode) -> Key {
    Key { code, ctrl: false }
}

fn ctrl(c: char) -> Key {
    Key { code: KeyCode::Char(c), ctrl: true }
}

fn app() -> App {
    App::new(
        "/home/u".to_string(),
        Store::new(),
        false,
        listing("/home/u", &[("docs", true), ("src", true), ("notes.txt", false), ("scripts", true)]),
    )
}

fn highlighted(app: &App) -> Option<String> {
    app.current_entry().map(|e| e.name.clone())
}

#[test]
fn new_app_lists_everything() {
    let a = app();
    assert_eq!(a.mode, Mode::Browse);
    assert_eq!(a.filtered, vec![0, 1, 2, 3]);
    assert_eq!(a.cursor, 0);
    assert_eq!(highlighted(&a).as_deref(), Some("docs"));
    assert!(a.status.is_none());
}

#[test]
fn unreadable_directory_is_reported() {
    let a = App::new("/x".to_string(), Store::new(), false, Err("permission denied".to_string()));
    assert!(a.entries.is_empty());
    assert_eq!(a.status.as_deref(), Some("cannot read directory: permission denied"));
    assert!(a.current_entry().is_none());
}

#[test]
fn cursor_moves_and_stops_at_ends() {
    let mut a = app();
    handle(&mut a, key(KeyCode::Down));
    assert_eq!(a.cursor, 1);
    handle(&mut a, key(KeyCode::PageDown));
    assert_eq!(a.cursor, 3);
    handle(&mut a, key(KeyCode::Up));
    assert_eq!(a.cursor, 2);
    handle(&mut a, ctrl('p'));
    assert_eq!(a.cursor, 1);
    handle(&mut a, key(KeyCode::PageUp));
    assert_eq!(a.cursor, 0);
    handle(&mut a, ctrl('n'));
    assert_eq!(a.cursor, 1);
}

#[test]
fn typing_filters_and_backspace_restores() {
    let mut a = app();
    a.cursor = 2;
    handle(&mut a, key(KeyCode::Char('s')));
    assert_eq!(a.query, "s");
    assert_eq!(a.cursor, 0);
    assert!(a.filtered.iter().all(|&i| a.entries[i].name.contains('s')));
    handle(&mut a, key(KeyCode::Char('r')));
    assert_eq!(a.query, "sr");
    assert_eq!(highlighted(&a).as_deref(), Some("src"));
    handle(&mut a, key(KeyCode::Backspace));
    assert_eq!(a.query, "s");
    handle(&mut a, ctrl('u'));
    assert_eq!(a.query, "");
    assert_eq!(a.filtered, vec![0, 1, 2, 3]);
}

#[test]
fn descend_and_reload() {
    let mut a = app();
    handle(&mut a, key(KeyCode::Down)); // scripts
    assert_eq!(highlighted(&a).as_deref(), Some("scripts"));
    match handle(&mut a, key(KeyCode::Right)) {
        Action::Reload(AfterReload::Nothing) => {}
        _ => panic!("descending asks for the new listing"),
    }
    assert_eq!(a.cwd, "/home/u/scripts");
    assert_eq!(a.cursor, 0);
    a.finish_reload(listing("/home/u/scripts", &[("a.sh", false)]), AfterReload::Nothing);
    assert_eq!(highlighted(&a).as_deref(), Some("a.sh"));
    // a file cannot be descended into
    match handle(&mut a, key(KeyCode::Tab)) {
        Action::Nothing => {}
        _ => panic!("nothing to open"),
    }
    assert_eq!(a.cwd, "/home/u/scripts");
}

#[test]
fn ascend_reselects_the_folder_we_came_from() {
    let mut a = App::new(
        "/home/u/src".to_string(),
        Store::new(),
        false,
        listing("/home/u/src", &[("main.rs", false)]),
    );
    let after = match handle(&mut a, key(KeyCode::Left)) {
        Action::Reload(after) => after,
        _ => panic!("ascending asks for the parent's listing"),
    };
    assert_eq!(a.cwd, "/home/u");
    match &after {
        AfterReload::Reselect(name) => assert_eq!(name, "src"),
        _ => panic!("the folder we came from is re-selected"),
    }
    a.finish_reload(listing("/home/u", &[("docs", true), ("src", true), ("notes.txt", false)]), after);
    assert_eq!(highlighted(&a).as_deref(), Some("src"));
}

#[test]
fn backspace_on_empty_query_ascends() {
    let mut a = app();
    match handle(&mut a, key(KeyCode::Backspace)) {
        Action::Reload(AfterReload::Reselect(name)) => assert_eq!(name, "u"),
        _ => panic!("backspace on an empty query goes up"),
    }
    assert_eq!(a.cwd, "/home");
}

#[test]
fn ascend_at_root_does_nothing() {
    let mut a = App::new("/".to_string(), Store::new(), false, listing("", &[("home", true)]));
    match handle(&mut a, key(KeyCode::Left)) {
        Action::Nothing => {}
        _ => panic!("the root has no parent"),
    }
    assert_eq!(a.cwd, "/");
}

#[test]
fn accept_picks_highlighted_dir_or_cwd() {
    let mut a = app();
    handle(&mut a, key(KeyCode::Enter));
    assert_eq!(a.selected.as_deref(), Some("/home/u/docs"));
    assert!(a.should_quit);

    let mut a = app();
    handle(&mut a, key(KeyCode::PageDown)); // notes.txt
    assert_eq!(highlighted(&a).as_deref(), Some("notes.txt"));
    handle(&mut a, key(KeyCode::Enter));
    assert_eq!(a.selected.as_deref(), Some("/home/u"));
}

#[test]
fn escape_and_ctrl_c_cancel() {
    let mut a = app();
    handle(&mut a, key(KeyCode::Esc));
    assert!(a.selected.is_none() && a.should_quit);
    let mut a = app();
    a.enter_jump_mode();
    a.selected = Some("/x".to_string());
    handle(&mut a, ctrl('c'));
    assert!(a.selected.is_none() && a.should_quit);
}

#[test]
fn toggle_hidden_reports_after_reload() {
    let mut a = app();
    let after = match handle(&mut a, ctrl('a')) {
        Action::Reload(after) => after,
        _ => panic!("toggling hidden files rereads the directory"),
    };
    assert!(a.show_hidden);
    a.finish_reload(listing("/home/u", &[("docs", true)]), after);
    assert_eq!(a.status.as_deref(), Some("hidden files: shown"));
}

#[test]
fn bookmark_toggles_and_reports() {
    let mut a = app();
    match handle(&mut a, ctrl('b')) {
        Action::Save => {}
        _ => panic!("bookmarking saves the store"),
    }
    assert!(a.store.is_bookmarked("/home/u/docs"));
    assert_eq!(a.status.as_deref(), Some("bookmarked /home/u/docs"));
    handle(&mut a, ctrl('b'));
    assert!(!a.store.is_bookmarked("/home/u/docs"));
    assert_eq!(a.status.as_deref(), Some("un-bookmarked /home/u/docs"));
}

#[test]
fn jump_mode_lists_ranked_dirs() {
    let store = Store::from_records(vec![
        ("/".to_string(), Record { count: 1, last_access: 0, bookmarked: false }),
        ("/tmp".to_string(), Record { count: 0, last_access: 0, bookmarked: true }),
        ("/no/such/dir/anywhere".to_string(), Record { count: 9, last_access: 0, bookmarked: true }),
    ]);
    let mut a = App::new("/home/u".to_string(), store, false, listing("/home/u", &[]));
    handle(&mut a, ctrl('f'));
    assert_eq!(a.mode, Mode::Jump);
    let displays: Vec<&str> = a.jump_entries.iter().map(|e| e.display.as_str()).collect();
    assert_eq!(displays, vec!["/tmp", "/"]);
    assert!(a.jump_entries[0].bookmarked);
    handle(&mut a, key(KeyCode::Down));
    handle(&mut a, key(KeyCode::Enter));
    assert_eq!(a.selected.as_deref(), Some("/"));
    assert!(a.should_quit);
}

#[test]
fn empty_jump_mode_is_reported_and_left() {
    let mut a = app();
    handle(&mut a, ctrl('f'));
    assert_eq!(a.status.as_deref(), Some("no frecent/bookmarked dirs yet — accept some first"));
    handle(&mut a, key(KeyCode::Enter));
    assert!(!a.should_quit);
    handle(&mut a, key(KeyCode::Esc));
    assert_eq!(a.mode, Mode::Browse);
    assert!(a.status.is_none());
}

#[test]
fn find_mode_walks_and_filters() {
    let mut a = app();
    let walk = match handle(&mut a, ctrl('s')) {
        Action::Find(w) => w,
        _ => panic!("find mode asks for a walk"),
    };
    assert_eq!(a.mode, Mode::Find);
    assert_eq!(a.find_root, "/home/u");
    let mut walk = walk;
    assert_eq!(walk.next_dir().as_deref(), Some("/home/u"));
    let _ = walk;
    a.finish_find(
        vec![
            FoundDir { path: "/home/u/docs".into(), rel: "docs".into() },
            FoundDir { path: "/home/u/src/app".into(), rel: "src/app".into() },
        ],
        false,
    );
    assert_eq!(a.status.as_deref(), Some("found 2 dirs under /home/u"));
    handle(&mut a, key(KeyCode::Char('a')));
    handle(&mut a, key(KeyCode::Char('p')));
    assert_eq!(a.find_query, "ap");
    assert_eq!(a.find_current().map(|e| e.display.as_str()), Some("src/app"));
    handle(&mut a, key(KeyCode::Enter));
    assert_eq!(a.selected.as_deref(), Some("/home/u/src/app"));

    let mut a = app();
    handle(&mut a, ctrl('s'));
    a.finish_find(vec![FoundDir { path: "/p".into(), rel: "p".into() }], true);
    assert_eq!(a.status.as_deref(), Some("found 1+ dirs (capped) under /home/u"));
    handle(&mut a, ctrl('s'));
    assert_eq!(a.mode, Mode::Browse);
}

#[test]
fn keymap_table() {
    assert_eq!(keymap(Mode::Browse, key(KeyCode::Char('x'))), Command::Type('x'));
    assert_eq!(keymap(Mode::Browse, ctrl('x')), Command::Ignore);
    assert_eq!(keymap(Mode::Browse, key(KeyCode::Other)), Command::Ignore);
    assert_eq!(keymap(Mode::Jump, key(KeyCode::Left)), Command::Ignore);
    assert_eq!(keymap(Mode::Jump, ctrl('f')), Command::ExitJump);
    assert_eq!(keymap(Mode::Find, ctrl('f')), Command::Ignore);
    assert_eq!(keymap(Mode::Find, ctrl('s')), Command::ExitFind);
    for m in [Mode::Browse, Mode::Jump, Mode::Find] {
        assert_eq!(keymap(m, ctrl('c')), Command::Cancel);
    }
}

#[test]
fn ascend_from_a_relative_name_goes_to_the_empty_parent() {
    let mut a = App::new("src".to_string(), Store::new(), false, listing("src", &[]));
    match handle(&mut a, key(KeyCode::Left)) {
        Action::Reload(AfterReload::Reselect(name)) => assert_eq!(name, "src"),
        _ => panic!("a relative name has the empty path as parent"),
    }
    assert_eq!(a.cwd, "");
    // the empty path has no parent
    match handle(&mut a, key(KeyCode::Left)) {
        Action::Nothing => {}
        _ => panic!("nowhere further up"),
    }
}

#[test]
fn ascend_ignores_trailing_slashes() {
    let mut a = App::new("/home/u/".to_string(), Store::new(), false, listing("/home/u", &[]));
    match handle(&mut a, key(KeyCode::Left)) {
        Action::Reload(AfterReload::Reselect(name)) => assert_eq!(name, "u"),
        _ => panic!("going up from a directory"),
    }
    assert_eq!(a.cwd, "/home");
}
