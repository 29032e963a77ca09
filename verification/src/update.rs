//! Release checking and self-update planning: comparing the latest release
//! tag with the running version, naming the release asset for a platform,
//! recognising package-manager installs and building the download URL.
//!
//! The network requests, archive extraction and the binary swap are done by
//! the program; this module decides what they act on.

use vstd::prelude::*;
use vstd::string::*;
use std::io::Read;
use flate2::read::GzDecoder;
use tar::Archive;
use crate::text::{
    append_str, chars_of, concat2, opt_view, find_last, last_occurrence, contains, contains_seq, lemma_split_nonempty, matches_at, occurs_at,
    skip_prefix, split, split_fields, str_eq, string_of, trim_end, trim_end_chars, trim_start,
    trim_start_chars,
};

verus! {

// ---------------------------------------------------------------------------
// Version strings
// ---------------------------------------------------------------------------

/// Whether `c` is an ASCII decimal digit.
pub open spec fn is_digit(c: char) -> bool {
    '0' <= c && c <= '9'
}

/// The value of the ASCII digit `c`.
pub open spec fn digit_value(c: char) -> nat {
    (c as int - '0' as int) as nat
}

/// Whether every character of `s` is a decimal digit.
pub open spec fn all_digits(s: Seq<char>) -> bool {
    forall|i: int| 0 <= i < s.len() ==> is_digit(#[trigger] s[i])
}

/// The number that the digits `s` write in decimal.
pub open spec fn digits_value(s: Seq<char>) -> nat
    decreases s.len(),
{
    if s.len() == 0 {
        0
    } else {
        digits_value(s.drop_last()) * 10 + digit_value(s.last())
    }
}

/// What `str::parse::<u64>` yields for `s`: an optional `+` followed by at
/// least one decimal digit, whose value fits in a `u64`.
pub open spec fn parse_u64_spec(s: Seq<char>) -> Option<u64> {
    let d = if s.len() > 0 && s[0] == '+' { s.drop_first() } else { s };
    if d.len() > 0 && all_digits(d) && digits_value(d) <= u64::MAX {
        Some(digits_value(d) as u64)
    } else {
        None
    }
}

/// The part of a version string before any pre-release (`-`) or build (`+`)
/// suffix.
pub open spec fn version_core(v: Seq<char>) -> Seq<char> {
    split_fields(v, seq!['-', '+'])[0]
}

/// A plain `major.minor.patch` version, after dropping any suffix; `None`
/// unless there are exactly three dot-separated numbers.
pub open spec fn parse_spec(v: Seq<char>) -> Option<(u64, u64, u64)> {
    let parts = split_fields(version_core(v), seq!['.']);
    if parts.len() == 3 {
        match (parse_u64_spec(parts[0]), parse_u64_spec(parts[1]), parse_u64_spec(parts[2])) {
            (Some(major), Some(minor), Some(patch)) => Some((major, minor, patch)),
            _ => None,
        }
    } else {
        None
    }
}

/// Lexicographic "greater than" on version triples.
pub open spec fn version_gt(a: (u64, u64, u64), b: (u64, u64, u64)) -> bool {
    a.0 > b.0 || (a.0 == b.0 && (a.1 > b.1 || (a.1 == b.1 && a.2 > b.2)))
}

/// Whether `latest` is a higher version than `current`; `None` when either
/// does not parse.
pub open spec fn is_newer_spec(latest: Seq<char>, current: Seq<char>) -> Option<bool> {
    match (parse_spec(latest), parse_spec(current)) {
        (Some(a), Some(b)) => Some(version_gt(a, b)),
        _ => None,
    }
}

proof fn lemma_digits_value_prefix(s: Seq<char>, k: int)
    requires
        all_digits(s),
        0 <= k <= s.len(),
    ensures
        digits_value(s.take(k)) <= digits_value(s),
    decreases s.len(),
{
    if k < s.len() {
        assert(s.drop_last().take(k) =~= s.take(k));
        lemma_digits_value_prefix(s.drop_last(), k);
    } else {
        assert(s.take(k) =~= s);
    }
}

/// Parses the decimal digits `d` (`str::parse::<u64>` after its sign).
fn parse_digits(d: &[char]) -> (r: Option<u64>)
    ensures
        r == (if d@.len() > 0 && all_digits(d@) && digits_value(d@) <= u64::MAX {
            Some(digits_value(d@) as u64)
        } else {
            None::<u64>
        }),
{
    if d.len() == 0 {
        return None;
    }
    let mut val: u64 = 0;
    let mut i: usize = 0;
    while i < d.len()
        invariant
            i <= d@.len(),
            all_digits(d@.take(i as int)),
            val as nat == digits_value(d@.take(i as int)),
        decreases d@.len() - i,
    {
        let c = d[i];
        proof {
            assert(d@.take(i + 1).drop_last() =~= d@.take(i as int));
        }
        if !('0' <= c && c <= '9') {
            assert(!is_digit(d@[i as int]));
            return None;
        }
        let dv = (c as u32 - '0' as u32) as u64;
        if val > (u64::MAX - dv) / 10 {
            proof {
                assert(all_digits(d@.take(i + 1)));
                assert(digits_value(d@.take(i + 1)) == digits_value(d@.take(i as int)) * 10 + dv);
                assert(digits_value(d@.take(i + 1)) > u64::MAX) by (nonlinear_arith)
                    requires
                        val > (u64::MAX - dv) / 10,
                        digits_value(d@.take(i + 1)) == val * 10 + dv,
                        dv <= 9,
                ;
                if all_digits(d@) {
                    lemma_digits_value_prefix(d@, i + 1);
                }
            }
            return None;
        }
        val = val * 10 + dv;
        i = i + 1;
        proof {
            assert(all_digits(d@.take(i as int)));
        }
    }
    assert(d@.take(d@.len() as int) =~= d@);
    Some(val)
}

/// What `str::parse::<u64>` yields for the characters `s`.
fn parse_u64(s: &[char]) -> (r: Option<u64>)
    ensures
        r == parse_u64_spec(s@),
{
    if s.len() > 0 && s[0] == '+' {
        let rest = skip_prefix(s, 1);
        assert(rest@ =~= s@.drop_first());
        parse_digits(rest.as_slice())
    } else {
        parse_digits(s)
    }
}

/// Parses a plain `major.minor.patch` version, ignoring any pre-release
/// (`-...`) or build (`+...`) suffix. `None` for anything else.
pub fn parse(v: &str) -> (r: Option<(u64, u64, u64)>)
    ensures
        r == parse_spec(v@),
{
    let chars = chars_of(v);
    let suffix_seps = vec!['-', '+'];
    assert(suffix_seps@ =~= seq!['-', '+']);
    let pieces = split(chars.as_slice(), suffix_seps.as_slice());
    proof {
        lemma_split_nonempty(v@, seq!['-', '+']);
    }
    let core = &pieces[0];
    let dot = vec!['.'];
    assert(dot@ =~= seq!['.']);
    let parts = split(core.as_slice(), dot.as_slice());
    if parts.len() != 3 {
        return None;
    }
    let major = parse_u64(parts[0].as_slice());
    let minor = parse_u64(parts[1].as_slice());
    let patch = parse_u64(parts[2].as_slice());
    match (major, minor, patch) {
        (Some(a), Some(b), Some(c)) => Some((a, b, c)),
        _ => None,
    }
}

/// True if `latest` is a higher version than `current`; `None` if either is
/// not a plain `major.minor.patch`.
pub fn is_newer(latest: &str, current: &str) -> (r: Option<bool>)
    ensures
        r == is_newer_spec(latest@, current@),
{
    let a = parse(latest);
    match a {
        None => None,
        Some(a) => {
            let b = parse(current);
            match b {
                None => None,
                Some(b) => Some(a.0 > b.0 || (a.0 == b.0 && (a.1 > b.1 || (a.1 == b.1 && a.2 > b.2)))),
            }
        },
    }
}


// ---------------------------------------------------------------------------
// Laws of the version order
// ---------------------------------------------------------------------------

/// A version that parses is never newer than itself.
pub proof fn lemma_is_newer_irreflexive(v: Seq<char>)
    requires
        parse_spec(v) is Some,
    ensures
        is_newer_spec(v, v) == Some(false),
{
}

/// If `a` is newer than `b`, then `b` is not newer than `a`.
pub proof fn lemma_is_newer_asymmetric(a: Seq<char>, b: Seq<char>)
    requires
        is_newer_spec(a, b) == Some(true),
    ensures
        is_newer_spec(b, a) == Some(false),
{
}

/// "Newer than" is transitive.
pub proof fn lemma_is_newer_transitive(a: Seq<char>, b: Seq<char>, c: Seq<char>)
    requires
        is_newer_spec(a, b) == Some(true),
        is_newer_spec(b, c) == Some(true),
    ensures
        is_newer_spec(a, c) == Some(true),
{
}

/// Of two versions that both parse, exactly one of: the first is newer, the
/// second is newer, or both parse to the same triple.
pub proof fn lemma_is_newer_total(a: Seq<char>, b: Seq<char>)
    requires
        parse_spec(a) is Some,
        parse_spec(b) is Some,
    ensures
        is_newer_spec(a, b) is Some,
        is_newer_spec(b, a) is Some,
        is_newer_spec(a, b) == Some(true) || is_newer_spec(b, a) == Some(true)
            || parse_spec(a) == parse_spec(b),
{
}

proof fn lemma_split_first_stable(t: Seq<char>, x: Seq<char>, seps: Seq<char>)
    requires
        split_fields(t, seps).len() >= 2,
    ensures
        split_fields(t + x, seps).len() >= 2,
        split_fields(t + x, seps)[0] == split_fields(t, seps)[0],
    decreases x.len(),
{
    if x.len() == 0 {
        assert(t + x =~= t);
    } else {
        assert((t + x).drop_last() =~= t + x.drop_last());
        lemma_split_first_stable(t, x.drop_last(), seps);
    }
}

proof fn lemma_split_no_sep(t: Seq<char>, seps: Seq<char>)
    requires
        forall|i: int| 0 <= i < t.len() ==> !seps.contains(#[trigger] t[i]),
    ensures
        split_fields(t, seps) == seq![t],
    decreases t.len(),
{
    if t.len() > 0 {
        lemma_split_no_sep(t.drop_last(), seps);
        assert(!seps.contains(t.last()));
        assert(t.drop_last().push(t.last()) =~= t);
        assert(seq![t.drop_last()].update(0, t.drop_last().push(t.last())) =~= seq![t]);
    } else {
        assert(t =~= Seq::<char>::empty());
    }
}

/// A pre-release or build suffix never changes how a version parses: for a
/// `core` free of `-` and `+`, `core` followed by `-` or `+` and anything
/// parses as `core` alone.
pub proof fn lemma_parse_ignores_suffix(core: Seq<char>, sep: char, rest: Seq<char>)
    requires
        sep == '-' || sep == '+',
        forall|i: int| 0 <= i < core.len() ==> core[i] != '-' && core[i] != '+',
    ensures
        parse_spec(core.push(sep) + rest) == parse_spec(core),
{
    let seps = seq!['-', '+'];
    assert forall|i: int| 0 <= i < core.len() implies !seps.contains(#[trigger] core[i]) by {
        if seps.contains(core[i]) {
            let j = choose|j: int| 0 <= j < seps.len() && seps[j] == core[i];
        }
    }
    lemma_split_no_sep(core, seps);
    assert(core.push(sep).drop_last() =~= core);
    assert(seps.contains(sep)) by {
        if sep == '-' { assert(seps[0] == sep); } else { assert(seps[1] == sep); }
    }
    assert(split_fields(core.push(sep), seps) =~= seq![core, Seq::<char>::empty()]);
    lemma_split_first_stable(core.push(sep), rest, seps);
    assert(version_core(core.push(sep) + rest) == core);
    assert(version_core(core) == core);
}

// ---------------------------------------------------------------------------
// Release assets
// ---------------------------------------------------------------------------

/// The operating-system part of a release asset name.
pub open spec fn release_os(os: Seq<char>) -> Option<Seq<char>> {
    if os == "linux"@ {
        Some("linux"@)
    } else if os == "macos"@ {
        Some("darwin"@)
    } else if os == "windows"@ {
        Some("windows"@)
    } else {
        None
    }
}

/// The architecture part of a release asset name.
pub open spec fn release_arch(arch: Seq<char>) -> Option<Seq<char>> {
    if arch == "x86_64"@ {
        Some("x86_64"@)
    } else if arch == "aarch64"@ {
        Some("arm64"@)
    } else {
        None
    }
}

/// The release asset for `(os, arch)` and the binary packed inside it.
pub open spec fn asset_for_spec(os: Seq<char>, arch: Seq<char>) -> Option<(Seq<char>, Seq<char>)> {
    match (release_os(os), release_arch(arch)) {
        (Some(o), Some(a)) => {
            let base = "fzd-"@ + o + "-"@ + a;
            if os == "windows"@ {
                Some((base + ".zip"@, base + ".exe"@))
            } else {
                Some((base + ".tar.gz"@, base))
            }
        },
        _ => None,
    }
}

/// Maps a Rust `(os, arch)` pair to the release asset name and the binary
/// file packed inside it; `None` for platforms without a published binary.
pub fn asset_for(os: &str, arch: &str) -> (r: Option<(String, String)>)
    ensures
        match r {
            Some((asset, bin)) => asset_for_spec(os@, arch@) == Some((asset@, bin@)),
            None => asset_for_spec(os@, arch@) is None,
        },
{
    let rel_os: &str = if str_eq(os, "linux") {
        "linux"
    } else if str_eq(os, "macos") {
        "darwin"
    } else if str_eq(os, "windows") {
        "windows"
    } else {
        return None;
    };
    let rel_arch: &str = if str_eq(arch, "x86_64") {
        "x86_64"
    } else if str_eq(arch, "aarch64") {
        "arm64"
    } else {
        return None;
    };
    let mut base = String::from_str("fzd-");
    append_str(&mut base, rel_os);
    append_str(&mut base, "-");
    append_str(&mut base, rel_arch);
    if str_eq(os, "windows") {
        let mut asset = base.clone();
        append_str(&mut asset, ".zip");
        let mut bin = base;
        append_str(&mut bin, ".exe");
        Some((asset, bin))
    } else {
        let mut asset = base.clone();
        append_str(&mut asset, ".tar.gz");
        Some((asset, base))
    }
}

// ---------------------------------------------------------------------------
// Package-manager installs
// ---------------------------------------------------------------------------

/// The package manager that owns an executable at `exe`, as a short hint
/// naming it and its update command; `None` for a raw-binary install.
pub open spec fn install_hint_spec(exe: Seq<char>) -> Option<Seq<char>> {
    if contains_seq(exe, "/nix/store/"@) {
        Some("Nix (`nix profile upgrade fzd`)"@)
    } else if contains_seq(exe, "/.cargo/"@) {
        Some("Cargo (`cargo install fzd --force`)"@)
    } else if contains_seq(exe, "node_modules"@) {
        Some("npm (`npm update -g @ervan0707/fzd`)"@)
    } else if contains_seq(exe, "site-packages"@) || contains_seq(exe, "/pipx/"@) {
        Some("pip (`pip install --upgrade fzd`)"@)
    } else if contains_seq(exe, "/Cellar/"@) || contains_seq(exe, "/homebrew/"@) {
        Some("Homebrew (`brew upgrade fzd`)"@)
    } else {
        None
    }
}

/// If the executable lives under a known package-manager tree, a short hint
/// naming that manager; self-update defers to it by default.
pub fn managed_install_hint(exe: &str) -> (r: Option<&'static str>)
    ensures
        match r {
            Some(h) => install_hint_spec(exe@) == Some(h@),
            None => install_hint_spec(exe@) is None,
        },
{
    if contains(exe, "/nix/store/") {
        Some("Nix (`nix profile upgrade fzd`)")
    } else if contains(exe, "/.cargo/") {
        Some("Cargo (`cargo install fzd --force`)")
    } else if contains(exe, "node_modules") {
        Some("npm (`npm update -g @ervan0707/fzd`)")
    } else if contains(exe, "site-packages") || contains(exe, "/pipx/") {
        Some("pip (`pip install --upgrade fzd`)")
    } else if contains(exe, "/Cellar/") || contains(exe, "/homebrew/") {
        Some("Homebrew (`brew upgrade fzd`)")
    } else {
        None
    }
}


// ---------------------------------------------------------------------------
// The repository and the release check
// ---------------------------------------------------------------------------

/// The repository URL of the project.
pub open spec fn repository_spec() -> Seq<char> {
    "https://github.com/ervan0707/fzd"@
}

/// The repository URL of the project.
pub fn repository() -> (r: &'static str)
    ensures
        r@ == repository_spec(),
{
    "https://github.com/ervan0707/fzd"
}

/// `owner/repo` taken from a GitHub URL: what follows the last
/// `github.com/` once trailing slashes are dropped, or the project's own slug
/// when the URL holds none.
pub open spec fn repo_slug_spec(url: Seq<char>) -> Seq<char> {
    let t = trim_end(url, '/');
    let pat = "github.com/"@;
    if exists|i: int| occurs_at(t, pat, i) {
        let i = choose|i: int| last_occurrence(t, pat, i);
        t.skip(i + pat.len())
    } else {
        "ervan0707/fzd"@
    }
}

/// `owner/repo` pulled from a repository URL, e.g.
/// `https://github.com/ervan0707/fzd` gives `ervan0707/fzd`.
pub fn repo_slug_of(url: &str) -> (r: String)
    ensures
        r@ == repo_slug_spec(url@),
{
    let chars = chars_of(url);
    let t = trim_end_chars(chars.as_slice(), '/');
    let pat = chars_of("github.com/");
    match find_last(t.as_slice(), pat.as_slice()) {
        Some(k) => {
            proof {
                assert(exists|i: int| occurs_at(t@, pat@, i));
                let c = choose|i: int| last_occurrence(t@, pat@, i);
                assert(c == k as int) by {
                    if c < k {
                        assert(!occurs_at(t@, pat@, k as int));
                    } else if c > k {
                    }
                }
            }
            assert(k + pat@.len() <= t@.len());
            assert(t@.len() == t.len() && pat@.len() == pat.len());
            let slug = skip_prefix(t.as_slice(), k + pat.len());
            string_of(slug.as_slice())
        },
        None => String::from_str("ervan0707/fzd"),
    }
}

/// `owner/repo` of the project's repository.
pub fn repo_slug() -> (r: String)
    ensures
        r@ == repo_slug_spec(repository_spec()),
{
    repo_slug_of(repository())
}

/// The outcome of comparing the latest release with the running version.
pub struct UpdateCheck {
    pub current: String,
    /// Latest version with any leading `v` stripped, for display/compare.
    pub latest: String,
    /// The raw release tag (e.g. `v0.2.0`), used to build the download URL.
    pub tag: String,
    pub newer: bool,
}

/// Why an update cannot go ahead.
pub enum UpdateError {
    /// The release tag or the running version is not `major.minor.patch`.
    CannotCompare { current: String, latest: String },
    /// The binary belongs to a package manager and `--force` was not given.
    ManagedInstall { hint: String, exe: String },
    /// No release binary is published for this platform.
    NoPrebuiltBinary { os: String, arch: String },
}

/// The text of an update error.
pub open spec fn update_error_message(e: UpdateError) -> Seq<char> {
    match e {
        UpdateError::CannotCompare { current, latest } =>
            "cannot compare versions "@ + current@ + " and "@ + latest@,
        UpdateError::ManagedInstall { hint, exe } =>
            "fzd looks installed via "@ + hint@ + ".\nUpdate it there, or re-run with --force to self-replace "@
                + exe@ + " anyway."@,
        UpdateError::NoPrebuiltBinary { os, arch } =>
            "no prebuilt binary published for "@ + os@ + "-"@ + arch@,
    }
}

impl UpdateError {
    /// The message shown to the user.
    pub fn message(&self) -> (r: String)
        ensures
            r@ == update_error_message(*self),
    {
        match self {
            UpdateError::CannotCompare { current, latest } => {
                let mut r = String::from_str("cannot compare versions ");
                append_str(&mut r, current.as_str());
                append_str(&mut r, " and ");
                append_str(&mut r, latest.as_str());
                r
            },
            UpdateError::ManagedInstall { hint, exe } => {
                let mut r = String::from_str("fzd looks installed via ");
                append_str(&mut r, hint.as_str());
                append_str(&mut r, ".\nUpdate it there, or re-run with --force to self-replace ");
                append_str(&mut r, exe.as_str());
                append_str(&mut r, " anyway.");
                r
            },
            UpdateError::NoPrebuiltBinary { os, arch } => {
                let mut r = String::from_str("no prebuilt binary published for ");
                append_str(&mut r, os.as_str());
                append_str(&mut r, "-");
                append_str(&mut r, arch.as_str());
                r
            },
        }
    }
}

/// Compares the latest release `tag` with the running version `current`:
/// the tag with its leading `v`s stripped is the latest version, and the
/// check fails exactly when either version is not `major.minor.patch`.
pub fn compare_release(tag: String, current: &str) -> (r: Result<UpdateCheck, UpdateError>)
    ensures
        r is Ok <==> is_newer_spec(trim_start(tag@, 'v'), current@) is Some,
        r matches Ok(u) ==> {
            &&& u.tag@ == tag@
            &&& u.latest@ == trim_start(tag@, 'v')
            &&& u.current@ == current@
            &&& is_newer_spec(u.latest@, current@) == Some(u.newer)
        },
        r matches Err(e) ==> e matches UpdateError::CannotCompare { current: c, latest: l }
            && c@ == current@ && l@ == trim_start(tag@, 'v'),
{
    let tag_chars = chars_of(tag.as_str());
    let latest_chars = trim_start_chars(tag_chars.as_slice(), 'v');
    let latest = string_of(latest_chars.as_slice());
    match is_newer(latest.as_str(), current) {
        Some(newer) => Ok(UpdateCheck { current: String::from_str(current), latest, tag, newer }),
        None => Err(UpdateError::CannotCompare { current: String::from_str(current), latest }),
    }
}

/// What a self-update has to do.
pub enum UpdatePlan {
    /// The running version is already the latest release.
    UpToDate,
    /// Download `url`, extract `bin_in_archive` from it into a scratch file
    /// named `scratch_name` beside the executable, then swap it in.
    Download { asset: String, bin_in_archive: String, url: String, scratch_name: String },
}

/// The download URL of `asset` in the release tagged `tag`.
pub open spec fn download_url_spec(tag: Seq<char>, asset: Seq<char>) -> Seq<char> {
    "https://github.com/"@ + repo_slug_spec(repository_spec()) + "/releases/download/"@ + tag + "/"@
        + asset
}

/// Decides what a self-update does, given the release check, the path of
/// the running executable, whether `--force` was given and the platform.
/// An up-to-date binary needs nothing; a package-manager install is refused
/// unless forced; a platform without a published binary is refused.
pub fn plan_update(check: &UpdateCheck, exe: &str, force: bool, os: &str, arch: &str) -> (r: Result<UpdatePlan, UpdateError>)
    ensures
        !check.newer ==> r matches Ok(UpdatePlan::UpToDate),
        check.newer && !force && install_hint_spec(exe@) is Some ==>
            (r matches Err(UpdateError::ManagedInstall { hint, exe: e })
                && Some(hint@) == install_hint_spec(exe@) && e@ == exe@),
        check.newer && (force || install_hint_spec(exe@) is None) && asset_for_spec(os@, arch@) is None ==>
            (r matches Err(UpdateError::NoPrebuiltBinary { os: o, arch: a }) && o@ == os@ && a@ == arch@),
        check.newer && (force || install_hint_spec(exe@) is None) && asset_for_spec(os@, arch@) is Some ==>
            (r matches Ok(UpdatePlan::Download { asset, bin_in_archive, url, scratch_name })
                && asset_for_spec(os@, arch@) == Some((asset@, bin_in_archive@))
                && url@ == download_url_spec(check.tag@, asset@)
                && scratch_name@ == ".fzd-update-"@ + check.latest@),
{
    if !check.newer {
        return Ok(UpdatePlan::UpToDate);
    }
    if let Some(hint) = managed_install_hint(exe) {
        if !force {
            return Err(UpdateError::ManagedInstall { hint: String::from_str(hint), exe: String::from_str(exe) });
        }
    }
    match asset_for(os, arch) {
        None => Err(UpdateError::NoPrebuiltBinary { os: String::from_str(os), arch: String::from_str(arch) }),
        Some((asset, bin_in_archive)) => {
            let slug = repo_slug();
            let mut url = String::from_str("https://github.com/");
            append_str(&mut url, slug.as_str());
            append_str(&mut url, "/releases/download/");
            append_str(&mut url, check.tag.as_str());
            append_str(&mut url, "/");
            append_str(&mut url, asset.as_str());
            let scratch_name = concat2(".fzd-update-", check.latest.as_str());
            Ok(UpdatePlan::Download { asset, bin_in_archive, url, scratch_name })
        },
    }
}


// ---------------------------------------------------------------------------
// Release archives
// ---------------------------------------------------------------------------

/// What reading a gzip-compressed tar archive gives: the entries read, in
/// order, each with its file name (`None` when it has none or it is not
/// UTF-8) and its contents, up to the first error; and the text of that
/// error, if one occurred.
pub uninterp spec fn tar_gz_entries(archive: Seq<u8>) -> (Seq<(Option<Seq<char>>, Seq<u8>)>, Option<Seq<char>>);

/// The plain values of what `read_tar_gz` returns.
pub open spec fn archive_view(r: (Vec<(Option<String>, Vec<u8>)>, Option<String>)) -> (Seq<(Option<Seq<char>>, Seq<u8>)>, Option<Seq<char>>) {
    (r.0@.map_values(|e: (Option<String>, Vec<u8>)| (opt_view(e.0), e.1@)), opt_view(r.1))
}

/// Reads a `.tar.gz` archive with `flate2`'s `GzDecoder` and `tar`'s
/// `Archive::entries`: each entry's file name and contents, stopping at the
/// first error, whose text is returned. The result depends on the bytes
/// alone.
#[verifier::external_body]
fn read_tar_gz(archive: &[u8]) -> (r: (Vec<(Option<String>, Vec<u8>)>, Option<String>))
    ensures
        archive_view(r) == tar_gz_entries(archive@),
{
    let mut out = Vec::new();
    let read = (|| -> std::io::Result<()> {
        let mut ar = Archive::new(GzDecoder::new(archive));
        for en in ar.entries()? {
            let mut en = en?;
            let name = en.path()?.file_name().and_then(|n| n.to_str()).map(String::from);
            let mut data = Vec::new();
            en.read_to_end(&mut data)?;
            out.push((name, data));
        }
        Ok(())
    })();
    (out, read.err().map(|e| e.to_string()))
}

/// The `k`-th entry is named `name`.
pub open spec fn entry_named_at(es: Seq<(Option<Seq<char>>, Seq<u8>)>, name: Seq<char>, k: int) -> bool {
    0 <= k < es.len() && es[k].0 == Some(name)
}

/// The contents of the first entry of a `.tar.gz` archive whose file name
/// is `bin_in_archive`. Without such an entry it fails: with the read
/// error if reading the archive stopped on one, otherwise with
/// "`bin_in_archive` not found in archive".
pub fn extract_binary(archive: &[u8], bin_in_archive: &str) -> (r: Result<Vec<u8>, String>)
    ensures
        ({
            let (es, err) = tar_gz_entries(archive@);
            match r {
                Ok(data) => exists|k: int| #[trigger] entry_named_at(es, bin_in_archive@, k)
                    && (forall|j: int| 0 <= j < k ==> !entry_named_at(es, bin_in_archive@, j))
                    && data@ == es[k].1,
                Err(msg) => (forall|k: int| !entry_named_at(es, bin_in_archive@, k))
                    && msg@ == match err {
                        Some(e) => e,
                        None => bin_in_archive@ + " not found in archive"@,
                    },
            }
        }),
{
    let (mut entries, err) = read_tar_gz(archive);
    let ghost es = tar_gz_entries(archive@).0;
    let ghost old_err = err;
    let mut k: usize = 0;
    while k < entries.len()
        invariant
            archive_view((entries, err)).0 == es,
            es == tar_gz_entries(archive@).0,
            err == old_err,
            opt_view(old_err) == tar_gz_entries(archive@).1,
            entries@.len() == es.len(),
            k <= entries@.len(),
            forall|j: int| 0 <= j < k ==> !entry_named_at(es, bin_in_archive@, j),
        decreases entries@.len() - k,
    {
        assert(es[k as int] == (opt_view(entries@[k as int].0), entries@[k as int].1@));
        let found = match &entries[k].0 {
            Some(name) => str_eq(name.as_str(), bin_in_archive),
            None => false,
        };
        if found {
            assert(entry_named_at(es, bin_in_archive@, k as int));
            let ghost picked = entries@[k as int];
            let (_, data) = entries.swap_remove(k);
            assert(data@ == picked.1@);
            assert(data@ == es[k as int].1);
            assert(es == tar_gz_entries(archive@).0);
            return Ok(data);
        }
        k = k + 1;
    }
    assert forall|j: int| !entry_named_at(es, bin_in_archive@, j) by {
        if 0 <= j < k {
        }
    }
    match err {
        Some(e) => Err(e),
        None => Err(concat2(bin_in_archive, " not found in archive")),
    }
}

/// The file names of the entries of a zip archive (`ZipArchive::by_index`
/// and `ZipFile::enclosed_name`, last component, lossily as text), in
/// order, up to the first entry that cannot be opened, and that error's
/// text.
pub uninterp spec fn zip_names(archive: Seq<u8>) -> (Seq<Option<Seq<char>>>, Option<Seq<char>>);

/// The contents of the `index`-th entry of a zip archive, or the text of
/// the error met opening or reading it.
pub uninterp spec fn zip_entry_data(archive: Seq<u8>, index: usize) -> Result<Seq<u8>, Seq<char>>;

/// The plain values of what `read_zip_names` returns.
pub open spec fn names_view(r: (Vec<Option<String>>, Option<String>)) -> (Seq<Option<Seq<char>>>, Option<Seq<char>>) {
    (r.0@.map_values(|n: Option<String>| opt_view(n)), opt_view(r.1))
}

/// The plain values of a result holding bytes or an error text.
pub open spec fn bytes_result_view(r: Result<Vec<u8>, String>) -> Result<Seq<u8>, Seq<char>> {
    match r {
        Ok(d) => Ok(d@),
        Err(e) => Err(e@),
    }
}

/// Opens a zip archive with `zip`'s `ZipArchive::new` and lists, with
/// `ZipArchive::by_index` and `ZipFile::enclosed_name`, the last path
/// component of each entry's name, stopping at the first error, whose text
/// is returned. The result depends on the bytes alone.
#[verifier::external_body]
fn read_zip_names(archive: &[u8]) -> (r: (Vec<Option<String>>, Option<String>))
    ensures
        names_view(r) == zip_names(archive@),
{
    let mut out = Vec::new();
    let read = (|| -> zip::result::ZipResult<()> {
        let mut zip = zip::ZipArchive::new(std::io::Cursor::new(archive))?;
        for i in 0..zip.len() {
            let f = zip.by_index(i)?;
            out.push(f.enclosed_name().and_then(|p| p.file_name().map(|s| s.to_string_lossy().into_owned())));
        }
        Ok(())
    })();
    (out, read.err().map(|e| e.to_string()))
}

/// Reads the `index`-th entry of a zip archive with `zip`'s
/// `ZipArchive::new` and `ZipArchive::by_index`: its contents, or the text
/// of the error met. The result depends on the bytes and the index alone.
#[verifier::external_body]
fn zip_entry_bytes(archive: &[u8], index: usize) -> (r: Result<Vec<u8>, String>)
    ensures
        bytes_result_view(r) == zip_entry_data(archive@, index),
{
    (|| -> zip::result::ZipResult<Vec<u8>> {
        let mut zip = zip::ZipArchive::new(std::io::Cursor::new(archive))?;
        let mut f = zip.by_index(index)?;
        let mut data = Vec::new();
        f.read_to_end(&mut data)?;
        Ok(data)
    })().map_err(|e| e.to_string())
}

/// `k` is the first position of `name` among `names`.
pub open spec fn first_named_at(names: Seq<Option<Seq<char>>>, name: Seq<char>, k: int) -> bool {
    &&& 0 <= k < names.len()
    &&& names[k] == Some(name)
    &&& forall|j: int| 0 <= j < k ==> names[j] != Some(name)
}

/// The contents of the first entry of a zip archive whose file name is
/// `bin_in_archive`, or the error met reading it. Without such an entry it
/// fails: with the error that stopped the listing if one did, otherwise
/// with "`bin_in_archive` not found in archive".
pub fn extract_zip_binary(archive: &[u8], bin_in_archive: &str) -> (r: Result<Vec<u8>, String>)
    ensures
        ({
            let (names, err) = zip_names(archive@);
            if exists|k: int| first_named_at(names, bin_in_archive@, k) {
                let k = choose|k: int| first_named_at(names, bin_in_archive@, k);
                bytes_result_view(r) == zip_entry_data(archive@, k as usize)
            } else {
                r matches Err(msg) && msg@ == match err {
                    Some(e) => e,
                    None => bin_in_archive@ + " not found in archive"@,
                }
            }
        }),
{
    let (names, err) = read_zip_names(archive);
    let ghost ns = zip_names(archive@).0;
    let mut k: usize = 0;
    while k < names.len()
        invariant
            names_view((names, err)) == zip_names(archive@),
            ns == zip_names(archive@).0,
            ns.len() == names@.len(),
            k <= names@.len(),
            forall|j: int| 0 <= j < k ==> ns[j] != Some(bin_in_archive@),
        decreases names@.len() - k,
    {
        assert(ns[k as int] == opt_view(names@[k as int]));
        let found = match &names[k] {
            Some(name) => str_eq(name.as_str(), bin_in_archive),
            None => false,
        };
        if found {
            assert(first_named_at(ns, bin_in_archive@, k as int));
            proof {
                assert forall|k2: int| first_named_at(ns, bin_in_archive@, k2) implies k2 == k by {
                    if k2 < k {
                    } else if k2 > k {
                        assert(ns[k as int] == Some(bin_in_archive@));
                    }
                }
            }
            return zip_entry_bytes(archive, k);
        }
        k = k + 1;
    }
    assert forall|j: int| !first_named_at(ns, bin_in_archive@, j) by {}
    match err {
        Some(e) => Err(e),
        None => Err(concat2(bin_in_archive, " not found in archive")),
    }
}

/// The GitHub API address of the project's latest release.
pub fn latest_release_url() -> (r: String)
    ensures
        r@ == "https://api.github.com/repos/"@ + repo_slug_spec(repository_spec()) + "/releases/latest"@,
{
    let slug = repo_slug();
    let mut r = String::from_str("https://api.github.com/repos/");
    append_str(&mut r, slug.as_str());
    append_str(&mut r, "/releases/latest");
    r
}

/// What to say when the repository has no published release yet.
pub fn no_releases_message() -> (r: String)
    ensures
        r@ == "no releases published for "@ + repo_slug_spec(repository_spec()) + " yet"@,
{
    let slug = repo_slug();
    let mut r = String::from_str("no releases published for ");
    append_str(&mut r, slug.as_str());
    append_str(&mut r, " yet");
    r
}

} // verus!
