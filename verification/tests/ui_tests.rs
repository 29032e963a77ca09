use fzd::app::App;
use fzd::fs::{build_listing, RawEntry};
use fzd::store::Store;
use fzd::ui::{browse_rows, find_rows, footer, info_lines, jump_rows, list_title, query_placeholder, selected_row, InfoLine};
use fzd::fs::FoundDir;

fn raw(name: &str, is_dir: bool, len: u64) -> RawEntry {
    RawEntry { name: name.to_string(), path: format!("/w/{name}"), is_dir, len, modified: None }
}

fn app() -> App {
    let mut store = Store::new();
    store.toggle_bookmark("/w/src");
    App::new(
        "/w".to_string(),
        store,
        true,
        Ok(build_listing(vec![raw("src", true, 0), raw("big.bin", false, 1536), raw(".env", false, 3)], true)),
    )
}

#[test]
fn browse_rows_show_kind_and_bookmarks() {
    let a = app();
    let rows = browse_rows(&a);
    assert_eq!(rows.len(), 3);
    assert_eq!(rows[0].icon, "▸ ");
    assert_eq!(rows[0].name, "src/");
    assert!(rows[0].bookmarked && rows[0].is_dir);
    assert_eq!(rows[1].icon, "  ");
    assert_eq!(rows[1].name, ".env");
    assert!(rows[1].is_hidden && !rows[1].bookmarked);
    assert_eq!(rows[2].name, "big.bin");
}

#[test]
fn info_panel_lines() {
    let mut a = app();
    let lines = info_lines(&a, Some(12));
    assert_eq!(lines.len(), 5);
    assert!(matches!(&lines[0], InfoLine::Title(n) if n == "src"));
    assert!(matches!(&lines[1], InfoLine::Kind("directory")));
    assert!(matches!(&lines[2], InfoLine::Blank));
    assert!(matches!(&lines[3], InfoLine::Field("items", v) if v == "12"));
    assert!(matches!(&lines[4], InfoLine::Bookmarked));
    let lines = info_lines(&a, None);
    assert!(matches!(&lines[3], InfoLine::Field("items", v) if v == "?"));
    a.cursor = 2;
    let lines = info_lines(&a, None);
    assert_eq!(lines.len(), 4);
    assert!(matches!(&lines[1], InfoLine::Kind("file")));
    assert!(matches!(&lines[3], InfoLine::Field("size", v) if v == "1.5K"));
    let empty = App::new("/e".to_string(), Store::new(), false, Ok(Vec::new()));
    let lines = info_lines(&empty, None);
    assert_eq!(lines.len(), 1);
    assert!(matches!(&lines[0], InfoLine::Empty));
}

#[test]
fn titles_placeholders_and_footer() {
    assert_eq!(list_title(3, "items"), " 3 items ");
    assert_eq!(list_title(0, "matches"), " 0 matches ");
    assert_eq!(query_placeholder("", "type to filter"), Some("  type to filter".to_string()));
    assert_eq!(query_placeholder("x", "type to filter"), None);
    assert_eq!(selected_row(0, 0), None);
    assert_eq!(selected_row(4, 2), Some(2));
    let mut a = app();
    assert_eq!(
        footer(&a),
        (
            "↑↓ move  ⏎ cd here  → open  ← up  ^S find  ^F jump  ^A hidden  ^B bookmark  esc quit".to_string(),
            false
        )
    );
    a.status = Some("hello".to_string());
    assert_eq!(footer(&a), ("hello".to_string(), true));
}

#[test]
fn jump_and_find_rows() {
    let mut a = app();
    a.enter_jump_mode();
    let rows = jump_rows(&a);
    assert_eq!(rows.len(), a.jump_filtered.len());
    a.enter_find_mode();
    a.finish_find(vec![FoundDir { path: "/w/src".into(), rel: "src".into() }], false);
    let rows = find_rows(&a);
    assert_eq!(rows.len(), 1);
    assert_eq!(rows[0].text, "src");
    assert!(rows[0].bookmarked);
}
