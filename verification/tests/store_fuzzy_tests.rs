use fuzzy_matcher::skim::SkimMatcherV2;
use fuzzy_matcher::FuzzyMatcher;
use fzd::fuzzy::{filter, Matcher};
use fzd::store::{Record, Store};

fn strings(xs: &[&str]) -> Vec<String> {
    xs.iter().map(|s| s.to_string()).collect()
}

#[test]
fn empty_query_keeps_everything_in_order() {
    let m = Matcher::new();
    let items = strings(&["b", "a", "c"]);
    assert_eq!(filter(&m, &items, ""), vec![0, 1, 2]);
    assert_eq!(filter(&m, &[], ""), Vec::<usize>::new());
}

#[test]
fn filter_keeps_matches_best_first() {
    let m = Matcher::new();
    let items = strings(&["src", "docs", "scripts", "Cargo.toml", "tests", "s"]);
    let got = filter(&m, &items, "s");
    // every index is a match, and non-matches are gone
    let skim = SkimMatcherV2::default();
    let mut expected: Vec<(usize, i64)> = items
        .iter()
        .enumerate()
        .filter_map(|(i, s)| skim.fuzzy_match(s, "s").map(|sc| (i, sc)))
        .collect();
    expected.sort_by(|a, b| b.1.cmp(&a.1).then(a.0.cmp(&b.0)));
    let expected: Vec<usize> = expected.into_iter().map(|(i, _)| i).collect();
    assert_eq!(got, expected);
    assert!(!got.contains(&3));
}

#[test]
fn filter_drops_non_matches() {
    let m = Matcher::new();
    let items = strings(&["alpha", "beta", "gamma"]);
    assert_eq!(filter(&m, &items, "zz"), Vec::<usize>::new());
    assert_eq!(filter(&m, &items, "bt"), vec![1]);
}

#[test]
fn filter_ties_keep_input_order() {
    let m = Matcher::new();
    let items = strings(&["same", "other", "same", "same"]);
    assert_eq!(filter(&m, &items, "same"), vec![0, 2, 3]);
}

#[test]
fn filter_smart_case() {
    let m = Matcher::new();
    let items = strings(&["Makefile", "makefile"]);
    // an upper-case letter in the query makes the match case sensitive
    assert_eq!(filter(&m, &items, "Make"), vec![0]);
    assert_eq!(filter(&m, &items, "make").len(), 2);
}

#[test]
fn toggle_bookmark_twice_restores() {
    let mut s = Store::new();
    assert!(!s.is_bookmarked("/a"));
    assert!(s.toggle_bookmark("/a"));
    assert!(s.is_bookmarked("/a"));
    assert!(!s.toggle_bookmark("/a"));
    assert!(!s.is_bookmarked("/a"));
    // the record was created with no accesses
    assert_eq!(s.entries().len(), 1);
    assert_eq!(s.entries()[0].1, Record { count: 0, last_access: 0, bookmarked: false });
}

#[test]
fn record_access_counts_and_keeps_bookmark() {
    let mut s = Store::new();
    s.toggle_bookmark("/p");
    s.record_access_at("/p", 100);
    s.record_access_at("/p", 250);
    s.record_access_at("/q", 7);
    let rec = s.entries().iter().find(|(p, _)| p == "/p").map(|(_, r)| *r).unwrap();
    assert_eq!(rec, Record { count: 2, last_access: 250, bookmarked: true });
    let rec = s.entries().iter().find(|(p, _)| p == "/q").map(|(_, r)| *r).unwrap();
    assert_eq!(rec, Record { count: 1, last_access: 7, bookmarked: false });
    assert_eq!(s.entries().len(), 2);
}

#[test]
fn record_access_uses_the_clock() {
    let mut s = Store::new();
    s.record_access("/now");
    let rec = s.entries()[0].1;
    assert_eq!(rec.count, 1);
    assert!(rec.last_access > 1_600_000_000);
}

#[test]
fn from_records_later_wins() {
    let s = Store::from_records(vec![
        ("/a".to_string(), Record { count: 1, last_access: 1, bookmarked: false }),
        ("/b".to_string(), Record { count: 2, last_access: 2, bookmarked: true }),
        ("/a".to_string(), Record { count: 3, last_access: 3, bookmarked: true }),
    ]);
    assert_eq!(s.entries().len(), 2);
    assert!(s.is_bookmarked("/a"));
    assert!(s.is_bookmarked("/b"));
}

#[test]
fn ranking_puts_bookmarks_first_then_frecency() {
    let now = 10_000_000;
    let s = Store::from_records(vec![
        // 3 accesses an hour ago: weight 2 -> 3 * 8 = 24 quarters
        ("/old".to_string(), Record { count: 3, last_access: now - 3600, bookmarked: false }),
        // 2 accesses just now: weight 4 -> 2 * 16 = 32
        ("/fresh".to_string(), Record { count: 2, last_access: now - 10, bookmarked: false }),
        // bookmarked but never accessed
        ("/mark".to_string(), Record { count: 0, last_access: 0, bookmarked: true }),
        // 100 accesses a month ago: weight 0.25 -> 100
        ("/stale".to_string(), Record { count: 100, last_access: now - 3_000_000, bookmarked: false }),
        // gone from disk
        ("/gone".to_string(), Record { count: 1000, last_access: now, bookmarked: true }),
        // 5 accesses two days ago: weight 0.5 -> 10
        ("/week".to_string(), Record { count: 5, last_access: now - 2 * 86_400, bookmarked: false }),
    ]);
    let present: Vec<bool> = s.entries().iter().map(|(p, _)| p != "/gone").collect();
    let ranked = s.ranked_from(now, &present);
    let paths: Vec<&str> = ranked.iter().map(|d| d.path.as_str()).collect();
    assert_eq!(paths, vec!["/mark", "/stale", "/fresh", "/old", "/week"]);
    let scores: Vec<u128> = ranked.iter().map(|d| d.score).collect();
    assert_eq!(scores, vec![0, 100, 32, 24, 10]);
    assert!(ranked[0].bookmarked && !ranked[1].bookmarked);
}

#[test]
fn ranking_of_existing_directories() {
    let mut s = Store::new();
    s.record_access("/");
    s.record_access("/definitely/not/a/dir/here");
    let ranked = s.ranked();
    assert_eq!(ranked.len(), 1);
    assert_eq!(ranked[0].path, "/");
    assert_eq!(ranked[0].score, 16);
}

#[test]
fn frecency_weights_by_age() {
    let rec = Record { count: 3, last_access: 1_000, bookmarked: false };
    let s = Store::from_records(vec![("/d".to_string(), rec)]);
    let present = vec![true];
    let at = |now: u64| s.ranked_from(now, &present)[0].score;
    assert_eq!(at(1_000), 48); // under an hour: 3 * 4
    assert_eq!(at(1_000 + 3_599), 48);
    assert_eq!(at(1_000 + 3_600), 24); // under a day: 3 * 2
    assert_eq!(at(1_000 + 86_400), 6); // under a week: 3 * 0.5
    assert_eq!(at(1_000 + 604_800), 3); // older: 3 * 0.25
    assert_eq!(at(0), 48); // a clock behind the record counts as age 0
}
