//! Fuzzy filtering, shared by the in-level type-to-filter and the jump and
//! find searches. Scores come from the skim matcher of `fuzzy_matcher`.

use vstd::prelude::*;
use vstd::string::*;
use fuzzy_matcher::skim::SkimMatcherV2;
use fuzzy_matcher::FuzzyMatcher;
use crate::order::{differs_first_at, key_lt, ordered_before, permutes_range, sort_indices, sorted_by_keys};

verus! {

#[verifier::external_type_specification]
#[verifier::external_body]
pub struct ExSkimMatcherV2(SkimMatcherV2);

/// The skim fuzzy matcher (`SkimMatcherV2`) in its default configuration:
/// smart case, default scoring, no element limit. It can only be built in
/// that configuration, so every `Matcher` scores as `skim_score` says.
pub struct Matcher {
    inner: SkimMatcherV2,
}

/// The score that a default-configured `SkimMatcherV2` gives to `choice`
/// for `pattern` (`FuzzyMatcher::fuzzy_match`), `None` when the pattern does
/// not match.
pub uninterp spec fn skim_score(choice: Seq<char>, pattern: Seq<char>) -> Option<i64>;

/// `SkimMatcherV2::default()`.
#[verifier::external_body]
fn default_skim_matcher() -> SkimMatcherV2 {
    SkimMatcherV2::default()
}

/// `FuzzyMatcher::fuzzy_match` of the default skim matcher: the score of
/// `choice` for `pattern`, a function of the two strings alone.
#[verifier::external_body]
fn skim_fuzzy_match(matcher: &Matcher, choice: &str, pattern: &str) -> (r: Option<i64>)
    ensures
        r == skim_score(choice@, pattern@),
{
    matcher.inner.fuzzy_match(choice, pattern)
}

impl Matcher {
    /// A matcher in the default configuration.
    pub fn new() -> Matcher {
        Matcher { inner: default_skim_matcher() }
    }
}

/// Item `i` of `items` matches `query`.
pub open spec fn is_match(items: Seq<String>, query: Seq<char>, i: int) -> bool {
    skim_score(items[i]@, query) is Some
}

/// Matching item `i` ranks before matching item `j`: a higher score, or an
/// equal score and an earlier position.
pub open spec fn ranks_before(items: Seq<String>, query: Seq<char>, i: int, j: int) -> bool {
    let a = skim_score(items[i]@, query)->0;
    let b = skim_score(items[j]@, query)->0;
    a > b || (a == b && i < j)
}

/// What `filter` returns: every index for an empty query, in order;
/// otherwise exactly the matching indices, best score first and ties in
/// their input order.
pub open spec fn filter_result(items: Seq<String>, query: Seq<char>, r: Seq<usize>) -> bool {
    if query.len() == 0 {
        r == Seq::new(items.len(), |i: int| i as usize)
    } else {
        &&& forall|k: int| 0 <= k < r.len() ==> #[trigger] r[k] < items.len() && is_match(items, query, r[k] as int)
        &&& forall|i: usize| i < items.len() && is_match(items, query, i as int) ==> #[trigger] r.contains(i)
        &&& forall|a: int, b: int| 0 <= a < b < r.len() ==> ranks_before(items, query, #[trigger] r[a] as int, #[trigger] r[b] as int)
    }
}

/// The key that orders scores from the highest down.
pub open spec fn descending_key(score: i64) -> u64 {
    (i64::MAX - score) as u64
}

fn descending_key_of(score: i64) -> (k: u64)
    ensures
        k == descending_key(score),
{
    (i64::MAX as i128 - score as i128) as u64
}

proof fn lemma_single_key_lt(x: u64, y: u64)
    ensures
        key_lt(seq![x], seq![y]) <==> x < y,
{
    if x < y {
        assert(differs_first_at(seq![x], seq![y], 0));
    }
    if key_lt(seq![x], seq![y]) {
        let k = choose|k: int| differs_first_at(seq![x], seq![y], k);
    }
}

/// Indices into `items` that match `query`, best score first; ties keep
/// their input order. An empty query keeps everything in order.
pub fn filter(matcher: &Matcher, items: &[String], query: &str) -> (r: Vec<usize>)
    ensures
        filter_result(items@, query@, r@),
{
    if query.unicode_len() == 0 {
        let mut all: Vec<usize> = Vec::new();
        let mut i: usize = 0;
        while i < items.len()
            invariant
                i <= items@.len(),
                all@ == Seq::new(i as nat, |k: int| k as usize),
            decreases items@.len() - i,
        {
            all.push(i);
            i = i + 1;
            assert(all@ =~= Seq::new(i as nat, |k: int| k as usize));
        }
        return all;
    }
    // the matching indices in order, with their scores
    let mut idx: Vec<usize> = Vec::new();
    let mut keys: Vec<Vec<u64>> = Vec::new();
    let mut i: usize = 0;
    while i < items.len()
        invariant
            i <= items@.len(),
            idx@.len() == keys@.len(),
            forall|k: int| 0 <= k < idx@.len() ==> #[trigger] idx@[k] < i && is_match(items@, query@, idx@[k] as int),
            forall|a: int, b: int| 0 <= a < b < idx@.len() ==> #[trigger] idx@[a] < #[trigger] idx@[b],
            forall|k: int| 0 <= k < idx@.len() ==> #[trigger] keys@[k]@ == seq![descending_key(skim_score(items@[idx@[k] as int]@, query@)->0)],
            forall|j: usize| j < i && is_match(items@, query@, j as int) ==> #[trigger] idx@.contains(j),
        decreases items@.len() - i,
    {
        let score = skim_fuzzy_match(matcher, items[i].as_str(), query);
        let ghost old_idx = idx@;
        if let Some(s) = score {
            let mut key: Vec<u64> = Vec::new();
            key.push(descending_key_of(s));
            assert(key@ =~= seq![descending_key(s)]);
            idx.push(i);
            keys.push(key);
        }
        proof {
            broadcast use vstd::seq_lib::lemma_seq_contains_after_push;
        }
        i = i + 1;
    }
    let perm = sort_indices(&keys);
    let mut r: Vec<usize> = Vec::new();
    let mut k: usize = 0;
    while k < perm.len()
        invariant
            k <= perm@.len(),
            permutes_range(perm@, 0, keys@.len() as int),
            idx@.len() == keys@.len(),
            r@.len() == k,
            forall|m: int| 0 <= m < k ==> #[trigger] r@[m] == idx@[perm@[m] as int],
        decreases perm@.len() - k,
    {
        r.push(idx[perm[k]]);
        k = k + 1;
    }
    proof {
        assert forall|a: int, b: int| 0 <= a < b < r@.len() implies ranks_before(items@, query@, #[trigger] r@[a] as int, #[trigger] r@[b] as int) by {
            let pa = perm@[a] as int;
            let pb = perm@[b] as int;
            assert(ordered_before(keys@, pa, pb));
            let sa = skim_score(items@[idx@[pa] as int]@, query@)->0;
            let sb = skim_score(items@[idx@[pb] as int]@, query@)->0;
            assert(r@[a] == idx@[pa] && r@[b] == idx@[pb]);
            assert(keys@[pa]@ == seq![descending_key(sa)]);
            assert(keys@[pb]@ == seq![descending_key(sb)]);
            lemma_single_key_lt(descending_key(sa), descending_key(sb));
            if key_lt(keys@[pa]@, keys@[pb]@) {
                assert(descending_key(sa) < descending_key(sb));
                assert(sa > sb);
            } else {
                assert(seq![descending_key(sa)][0] == seq![descending_key(sb)][0]);
                assert(sa == sb);
                assert(pa < pb);
                assert(idx@[pa] < idx@[pb]);
            }
        }
        assert forall|j: usize| j < items@.len() && is_match(items@, query@, j as int) implies #[trigger] r@.contains(j) by {
            assert(idx@.contains(j));
            let q = choose|q: int| 0 <= q < idx@.len() && idx@[q] == j;
            assert(perm@.contains(q as usize));
            let m = choose|m: int| 0 <= m < perm@.len() && perm@[m] == q as usize;
            assert(r@[m] == j);
        }
    }
    r
}

} // verus!
