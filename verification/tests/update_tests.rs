use std::io::Write;
use flate2::{write::GzEncoder, Compression};
use fzd::update::{extract_binary, extract_zip_binary, latest_release_url, no_releases_message};
use fzd::update::{
    asset_for, compare_release, is_newer, managed_install_hint, parse, plan_update, repo_slug,
    repo_slug_of, UpdateCheck, UpdateError, UpdatePlan,
};

#[test]
fn compares_versions() {
    assert_eq!(is_newer("0.2.0", "0.1.0"), Some(true));
    assert_eq!(is_newer("0.1.0", "0.1.0"), Some(false));
    assert_eq!(is_newer("0.1.0", "0.2.0"), Some(false));
    assert_eq!(is_newer("1.0.0", "0.9.9"), Some(true));
    assert_eq!(is_newer("0.1.10", "0.1.2"), Some(true));
}

#[test]
fn strips_prerelease_suffix() {
    assert_eq!(parse("1.2.3-rc1"), Some((1, 2, 3)));
    assert_eq!(parse("1.2.3+build.5"), Some((1, 2, 3)));
}

#[test]
fn rejects_malformed() {
    assert_eq!(parse("1.2"), None);
    assert_eq!(parse("1.2.3.4"), None);
    assert_eq!(parse("v1.2.3"), None); // caller strips the leading v
}

#[test]
fn asset_names_match_release_convention() {
    assert_eq!(
        asset_for("linux", "x86_64"),
        Some(("fzd-linux-x86_64.tar.gz".into(), "fzd-linux-x86_64".into()))
    );
    assert_eq!(
        asset_for("macos", "aarch64"),
        Some(("fzd-darwin-arm64.tar.gz".into(), "fzd-darwin-arm64".into()))
    );
    assert_eq!(
        asset_for("windows", "x86_64"),
        Some(("fzd-windows-x86_64.zip".into(), "fzd-windows-x86_64.exe".into()))
    );
    assert_eq!(asset_for("freebsd", "x86_64"), None);
    assert_eq!(asset_for("linux", "riscv64"), None);
}

#[test]
fn parse_edge_cases() {
    assert_eq!(parse("0.0.0"), Some((0, 0, 0)));
    assert_eq!(parse("007.08.9"), Some((7, 8, 9)));
    assert_eq!(parse("18446744073709551615.0.1"), Some((u64::MAX, 0, 1)));
    assert_eq!(parse("18446744073709551616.0.1"), None);
    assert_eq!(parse(""), None);
    assert_eq!(parse("1..3"), None);
    assert_eq!(parse("1.2.x"), None);
    assert_eq!(parse("1.2.3-"), Some((1, 2, 3)));
    assert_eq!(parse("1.2-3.4"), None);
    assert_eq!(parse("-1.2.3"), None);
    assert_eq!(parse(" 1.2.3"), None);
    assert_eq!(parse("1.2.3+a-b"), Some((1, 2, 3)));
}

#[test]
fn is_newer_law_examples() {
    // irreflexive, asymmetric, undefined on malformed input
    assert_eq!(is_newer("2.3.4", "2.3.4"), Some(false));
    assert_eq!(is_newer("2.3.5", "2.3.4"), Some(true));
    assert_eq!(is_newer("2.3.4", "2.3.5"), Some(false));
    assert_eq!(is_newer("2.3", "2.3.4"), None);
    assert_eq!(is_newer("2.3.4", "x"), None);
    // the suffix does not count
    assert_eq!(is_newer("1.0.0-rc1", "1.0.0"), Some(false));
    assert_eq!(is_newer("1.10.0", "1.9.99"), Some(true));
}

#[test]
fn managed_installs_are_recognised() {
    assert_eq!(
        managed_install_hint("/nix/store/abc-fzd/bin/fzd"),
        Some("Nix (`nix profile upgrade fzd`)")
    );
    assert_eq!(
        managed_install_hint("/home/u/.cargo/bin/fzd"),
        Some("Cargo (`cargo install fzd --force`)")
    );
    assert_eq!(
        managed_install_hint("/usr/lib/node_modules/@ervan0707/fzd/bin/fzd"),
        Some("npm (`npm update -g @ervan0707/fzd`)")
    );
    assert_eq!(
        managed_install_hint("/usr/lib/python3/site-packages/fzd/fzd"),
        Some("pip (`pip install --upgrade fzd`)")
    );
    assert_eq!(
        managed_install_hint("/home/u/.local/pipx/venvs/fzd/bin/fzd"),
        Some("pip (`pip install --upgrade fzd`)")
    );
    assert_eq!(
        managed_install_hint("/opt/homebrew/bin/fzd"),
        Some("Homebrew (`brew upgrade fzd`)")
    );
    assert_eq!(
        managed_install_hint("/usr/local/Cellar/fzd/1.0/bin/fzd"),
        Some("Homebrew (`brew upgrade fzd`)")
    );
    assert_eq!(managed_install_hint("/usr/local/bin/fzd"), None);
    // the first matching manager wins
    assert_eq!(
        managed_install_hint("/nix/store/x/node_modules/fzd"),
        Some("Nix (`nix profile upgrade fzd`)")
    );
}

#[test]
fn repo_slug_from_urls() {
    assert_eq!(repo_slug(), "ervan0707/fzd");
    assert_eq!(repo_slug_of("https://github.com/a/b/"), "a/b");
    assert_eq!(repo_slug_of("https://github.com/a/b///"), "a/b");
    assert_eq!(repo_slug_of("https://example.com/a/b"), "ervan0707/fzd");
    assert_eq!(repo_slug_of(""), "ervan0707/fzd");
    assert_eq!(repo_slug_of("https://github.com/x/github.com/y/z"), "y/z");
}

#[test]
fn release_tags_are_compared() {
    let u = match compare_release("v0.3.1".to_string(), "0.2.9") {
        Ok(u) => u,
        Err(_) => panic!("comparable versions"),
    };
    assert_eq!(u.tag, "v0.3.1");
    assert_eq!(u.latest, "0.3.1");
    assert_eq!(u.current, "0.2.9");
    assert!(u.newer);

    let u = match compare_release("vv1.0.0".to_string(), "1.0.0") {
        Ok(u) => u,
        Err(_) => panic!("comparable versions"),
    };
    assert_eq!(u.latest, "1.0.0");
    assert!(!u.newer);

    match compare_release("nightly".to_string(), "1.0.0") {
        Ok(_) => panic!("a tag that is no version cannot be compared"),
        Err(e) => assert_eq!(e.message(), "cannot compare versions 1.0.0 and nightly"),
    }
}

fn check(newer: bool) -> UpdateCheck {
    UpdateCheck {
        current: "0.1.0".to_string(),
        latest: "0.2.0".to_string(),
        tag: "v0.2.0".to_string(),
        newer,
    }
}

#[test]
fn update_plans() {
    match plan_update(&check(false), "/usr/local/bin/fzd", false, "linux", "x86_64") {
        Ok(UpdatePlan::UpToDate) => {}
        _ => panic!("an up-to-date binary needs nothing"),
    }
    match plan_update(&check(true), "/usr/local/bin/fzd", false, "linux", "x86_64") {
        Ok(UpdatePlan::Download { asset, bin_in_archive, url, scratch_name }) => {
            assert_eq!(asset, "fzd-linux-x86_64.tar.gz");
            assert_eq!(bin_in_archive, "fzd-linux-x86_64");
            assert_eq!(
                url,
                "https://github.com/ervan0707/fzd/releases/download/v0.2.0/fzd-linux-x86_64.tar.gz"
            );
            assert_eq!(scratch_name, ".fzd-update-0.2.0");
        }
        _ => panic!("a raw binary on a published platform is updated"),
    }
    match plan_update(&check(true), "/home/u/.cargo/bin/fzd", false, "linux", "x86_64") {
        Err(e @ UpdateError::ManagedInstall { .. }) => assert_eq!(
            e.message(),
            "fzd looks installed via Cargo (`cargo install fzd --force`).\nUpdate it there, or re-run with --force to self-replace /home/u/.cargo/bin/fzd anyway."
        ),
        _ => panic!("a cargo install is refused"),
    }
    match plan_update(&check(true), "/home/u/.cargo/bin/fzd", true, "windows", "x86_64") {
        Ok(UpdatePlan::Download { asset, .. }) => assert_eq!(asset, "fzd-windows-x86_64.zip"),
        _ => panic!("--force overrides the package manager"),
    }
    match plan_update(&check(true), "/usr/local/bin/fzd", false, "freebsd", "x86_64") {
        Err(e @ UpdateError::NoPrebuiltBinary { .. }) => {
            assert_eq!(e.message(), "no prebuilt binary published for freebsd-x86_64")
        }
        _ => panic!("no binary for freebsd"),
    }
}

fn tar_gz(files: &[(&str, &[u8])]) -> Vec<u8> {
    let mut gz = GzEncoder::new(Vec::new(), Compression::default());
    {
        let mut builder = tar::Builder::new(&mut gz);
        for (name, body) in files {
            let mut header = tar::Header::new_gnu();
            header.set_size(body.len() as u64);
            header.set_mode(0o644);
            header.set_cksum();
            builder.append_data(&mut header, name, *body).unwrap();
        }
        builder.finish().unwrap();
    }
    gz.finish().unwrap()
}

#[test]
fn extracts_binary_from_tar_gz() {
    // Build a gzipped tar holding a couple of files, one of them our binary.
    let payload = b"#!/bin/sh\necho hi\n";
    let archive = tar_gz(&[("README", &b"noise"[..]), ("fzd-linux-x86_64", payload)]);
    assert_eq!(extract_binary(&archive, "fzd-linux-x86_64"), Ok(payload.to_vec()));
    // A missing binary name is a clean error, not a panic.
    assert_eq!(extract_binary(&archive, "nope"), Err("nope not found in archive".to_string()));
}

#[test]
fn extract_matches_file_names_and_takes_the_first() {
    let archive = tar_gz(&[("dir/fzd", &b"one"[..]), ("other/fzd", &b"two"[..])]);
    assert_eq!(extract_binary(&archive, "fzd"), Ok(b"one".to_vec()));
    // a damaged archive fails with the read error, not "not found"
    let bad = b"definitely not gzip";
    match extract_binary(bad, "fzd") {
        Ok(_) => panic!("garbage is no archive"),
        Err(e) => assert_ne!(e, "fzd not found in archive"),
    }
}

fn zip_of(files: &[(&str, &[u8])]) -> Vec<u8> {
    let mut w = zip::ZipWriter::new(std::io::Cursor::new(Vec::new()));
    let opts = zip::write::SimpleFileOptions::default().compression_method(zip::CompressionMethod::Deflated);
    for (name, body) in files {
        w.start_file(*name, opts).unwrap();
        w.write_all(body).unwrap();
    }
    w.finish().unwrap().into_inner()
}

#[test]
fn extracts_binary_from_zip() {
    let archive = zip_of(&[("README.md", &b"noise"[..]), ("dist/fzd.exe", &b"MZ one"[..]), ("fzd.exe", &b"MZ two"[..])]);
    assert_eq!(extract_zip_binary(&archive, "fzd.exe"), Ok(b"MZ one".to_vec()));
    assert_eq!(extract_zip_binary(&archive, "README.md"), Ok(b"noise".to_vec()));
    assert_eq!(extract_zip_binary(&archive, "nope.exe"), Err("nope.exe not found in archive".to_string()));
    match extract_zip_binary(b"not a zip at all", "fzd.exe") {
        Ok(_) => panic!("garbage is no archive"),
        Err(e) => assert_ne!(e, "fzd.exe not found in archive"),
    }
}

#[test]
fn release_addresses() {
    assert_eq!(latest_release_url(), "https://api.github.com/repos/ervan0707/fzd/releases/latest");
    assert_eq!(no_releases_message(), "no releases published for ervan0707/fzd yet");
}
