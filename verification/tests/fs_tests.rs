use fzd::fs::{build_listing, human_size, relative_to, sort_found, time_ago, DirChild, FoundDir, RawEntry, Walk};

/// The size label as `f64` arithmetic and `{:.1}` formatting give it.
fn reference_size(bytes: u64) -> String {
    const UNITS: [&str; 6] = ["B", "K", "M", "G", "T", "P"];
    let mut size = bytes as f64;
    let mut unit = 0;
    while size >= 1024.0 && unit < UNITS.len() - 1 {
        size /= 1024.0;
        unit += 1;
    }
    if unit == 0 {
        format!("{bytes} {}", UNITS[0])
    } else {
        format!("{size:.1}{}", UNITS[unit])
    }
}

#[test]
fn human_size_exact_values() {
    assert_eq!(human_size(0), "0 B");
    assert_eq!(human_size(1023), "1023 B");
    assert_eq!(human_size(1024), "1.0K");
    assert_eq!(human_size(1536), "1.5K");
    assert_eq!(human_size(1024 * 1024), "1.0M");
    assert_eq!(human_size(5 * 1024 * 1024 * 1024), "5.0G");
    assert_eq!(human_size(u64::MAX), "16384.0P");
}

#[test]
fn human_size_matches_float_formatting() {
    let mut samples: Vec<u64> = vec![
        0, 1, 999, 1023, 1024, 1025, 1075, 1076, 1126, 1127, 1280, 1331, 1332, 1433, 1536, 1740, 2048,
        10239, 10240, 1048575, 1048576, 1101004, 1310720, 1073741823, 1073741824,
        1099511627775, 1099511627776, 1125899906842623, 1125899906842624,
        9007199254740991, 9007199254740992, 9007199254740993, 9007199254740995,
        18014398509481983, 18014398509481985, u64::MAX - 1, u64::MAX, 1 << 63, (1 << 63) + 1024,
    ];
    // ties at a tenth: 10 * bytes = odd multiple of half the unit
    for m in 0u64..200 {
        samples.push((1024 * m + 512) / 10 * 1);
        samples.push(1024 * m + 51);
        samples.push(1024 * m + 52);
        samples.push(1024 * 1024 * m + 52428);
        samples.push(1024 * 1024 * m + 52429);
    }
    let mut x: u64 = 0x9e3779b97f4a7c15;
    for _ in 0..5000 {
        x ^= x << 13;
        x ^= x >> 7;
        x ^= x << 17;
        samples.push(x >> (x % 60));
        samples.push(x);
    }
    for b in samples {
        assert_eq!(human_size(b), reference_size(b), "bytes = {b}");
    }
}

#[test]
fn time_ago_labels() {
    assert_eq!(time_ago(0), "just now");
    assert_eq!(time_ago(59), "just now");
    assert_eq!(time_ago(60), "1m ago");
    assert_eq!(time_ago(3599), "59m ago");
    assert_eq!(time_ago(3600), "1h ago");
    assert_eq!(time_ago(86399), "23h ago");
    assert_eq!(time_ago(86400), "1d ago");
    assert_eq!(time_ago(2_591_999), "29d ago");
    assert_eq!(time_ago(2_592_000), "1mo ago");
    assert_eq!(time_ago(31_104_000), "12mo ago");
}

fn raw(name: &str, is_dir: bool, len: u64) -> RawEntry {
    RawEntry { name: name.to_string(), path: format!("/r/{name}"), is_dir, len, modified: None }
}

#[test]
fn listing_puts_directories_first_then_names_case_insensitively() {
    let listing = build_listing(
        vec![
            raw("zeta.txt", false, 10),
            raw("Beta", true, 4096),
            raw(".hidden", true, 0),
            raw("alpha", true, 4096),
            raw("Alpha.md", false, 7),
            raw("alpha.md", false, 8),
            raw(".dotfile", false, 3),
        ],
        false,
    );
    let names: Vec<&str> = listing.iter().map(|e| e.name.as_str()).collect();
    assert_eq!(names, vec!["alpha", "Beta", "Alpha.md", "alpha.md", "zeta.txt"]);
    // directories have size 0, files keep theirs
    assert_eq!(listing[0].size, 0);
    assert_eq!(listing[4].size, 10);
    assert!(listing.iter().all(|e| !e.is_hidden));
    assert_eq!(listing[1].path, "/r/Beta");
}

#[test]
fn listing_shows_hidden_entries_on_request() {
    let listing = build_listing(
        vec![raw("b", false, 1), raw(".git", true, 0), raw(".a", false, 2)],
        true,
    );
    let names: Vec<&str> = listing.iter().map(|e| e.name.as_str()).collect();
    assert_eq!(names, vec![".git", ".a", "b"]);
    assert!(listing[0].is_hidden && listing[1].is_hidden && !listing[2].is_hidden);
}

fn child(name: &str, parent: &str, is_dir: bool, is_symlink: bool) -> DirChild {
    let path = format!("{parent}/{name}");
    DirChild { name: name.to_string(), path, is_dir, is_symlink }
}

/// Runs a walk over an in-memory tree: `tree` maps a directory to its children.
fn run_walk(tree: &[(&str, Vec<DirChild>)], show_hidden: bool, max_depth: usize, limit: usize) -> (Vec<FoundDir>, bool) {
    let mut walk = Walk::new("/root", show_hidden, max_depth, limit);
    while let Some(dir) = walk.next_dir() {
        let children = tree
            .iter()
            .find(|(d, _)| *d == dir)
            .map(|(_, cs)| {
                cs.iter()
                    .map(|c| DirChild {
                        name: c.name.clone(),
                        path: c.path.clone(),
                        is_dir: c.is_dir,
                        is_symlink: c.is_symlink,
                    })
                    .collect()
            });
        if let Some(cs) = children {
            walk.visit(cs);
        }
    }
    walk.finish()
}

fn sample_tree() -> Vec<(&'static str, Vec<DirChild>)> {
    vec![
        (
            "/root",
            vec![
                child("src", "/root", true, false),
                child("Docs", "/root", true, false),
                child(".git", "/root", true, false),
                child("node_modules", "/root", true, false),
                child(".config", "/root", true, false),
                child("file.txt", "/root", false, false),
                child("link", "/root", true, true),
            ],
        ),
        ("/root/src", vec![child("app", "/root/src", true, false), child("main.rs", "/root/src", false, false)]),
        ("/root/src/app", vec![child("deep", "/root/src/app", true, false)]),
        ("/root/link", vec![child("never", "/root/link", true, false)]),
        ("/root/.config", vec![child("fzd", "/root/.config", true, false)]),
    ]
}

#[test]
fn walk_skips_noise_hidden_files_and_symlinked_trees() {
    let (found, truncated) = run_walk(&sample_tree(), false, 12, 20_000);
    let rels: Vec<&str> = found.iter().map(|f| f.rel.as_str()).collect();
    assert_eq!(rels, vec!["Docs", "link", "src", "src/app", "src/app/deep"]);
    assert!(!truncated);
}

#[test]
fn walk_shows_hidden_when_asked() {
    let (found, _) = run_walk(&sample_tree(), true, 12, 20_000);
    let rels: Vec<&str> = found.iter().map(|f| f.rel.as_str()).collect();
    assert_eq!(rels, vec![".config", ".config/fzd", "Docs", "link", "src", "src/app", "src/app/deep"]);
}

#[test]
fn walk_respects_depth() {
    let (found, _) = run_walk(&sample_tree(), false, 1, 20_000);
    let rels: Vec<&str> = found.iter().map(|f| f.rel.as_str()).collect();
    assert_eq!(rels, vec!["Docs", "link", "src"]);
    let (found, _) = run_walk(&sample_tree(), false, 0, 20_000);
    assert!(found.is_empty());
}

#[test]
fn walk_stops_at_limit() {
    let (found, truncated) = run_walk(&sample_tree(), false, 12, 2);
    assert_eq!(found.len(), 2);
    assert!(truncated);
    let rels: Vec<&str> = found.iter().map(|f| f.rel.as_str()).collect();
    assert_eq!(rels, vec!["Docs", "src"]);
    let (found, truncated) = run_walk(&sample_tree(), false, 12, 5);
    assert_eq!(found.len(), 5);
    assert!(truncated);
    let (found, truncated) = run_walk(&sample_tree(), false, 12, 6);
    assert_eq!(found.len(), 5);
    assert!(!truncated);
}

#[test]
fn found_dirs_sort_case_insensitively_and_stably() {
    let ds = vec![
        FoundDir { path: "/x/b".into(), rel: "b".into() },
        FoundDir { path: "/x/A".into(), rel: "A".into() },
        FoundDir { path: "/x/a".into(), rel: "a".into() },
        FoundDir { path: "/x/a/z".into(), rel: "a/z".into() },
    ];
    let sorted = sort_found(ds);
    let paths: Vec<&str> = sorted.iter().map(|f| f.path.as_str()).collect();
    assert_eq!(paths, vec!["/x/A", "/x/a", "/x/a/z", "/x/b"]);
}

#[test]
fn relative_paths_strip_the_root_by_components() {
    assert_eq!(relative_to("/root/src/app", "/root"), "src/app");
    assert_eq!(relative_to("/root/src", "/root/"), "src");
    assert_eq!(relative_to("/root", "/root"), "");
    // not under the root (component-wise): the path is kept whole
    assert_eq!(relative_to("/rooted/x", "/root"), "/rooted/x");
    assert_eq!(relative_to("/other/x", "/root"), "/other/x");
}

#[test]
fn walk_reports_every_reachable_directory_once() {
    let tree = sample_tree();
    let (found, truncated) = run_walk(&tree, true, 10, 1000);
    assert!(!truncated);
    let mut paths: Vec<&str> = found.iter().map(|f| f.path.as_str()).collect();
    let n = paths.len();
    paths.sort();
    paths.dedup();
    assert_eq!(paths.len(), n);
    for f in &found {
        assert_eq!(f.rel, f.path.strip_prefix("/root/").unwrap());
    }
}
