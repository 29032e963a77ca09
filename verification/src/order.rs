//! A stable ordering of items by lexicographic keys.
//!
//! Every list the explorer shows is ordered by some key: directories before
//! files and then by lower-cased name, fuzzy score, frecency. Each of them
//! is written as a sequence of `u64` compared lexicographically (a prefix
//! comes first), and ties keep their input order, as a stable sort does.

use vstd::prelude::*;

verus! {

/// Lexicographic "less than" on key sequences: at the first position where
/// they differ the first is smaller, or the first is a proper prefix of the
/// second.
pub open spec fn key_lt(a: Seq<u64>, b: Seq<u64>) -> bool {
    exists|k: int| #[trigger] differs_first_at(a, b, k)
}

/// `a` and `b` agree before `k`, and at `k` either `a` has ended while `b`
/// goes on, or `a` holds the smaller value.
pub open spec fn differs_first_at(a: Seq<u64>, b: Seq<u64>, k: int) -> bool {
    &&& 0 <= k <= a.len()
    &&& k <= b.len()
    &&& (forall|j: int| 0 <= j < k ==> a[j] == b[j])
    &&& ((k == a.len() && k < b.len()) || (k < a.len() && k < b.len() && a[k] < b[k]))
}

/// Item `i` comes before item `j`: a smaller key, or an equal key and an
/// earlier position.
pub open spec fn ordered_before(keys: Seq<Vec<u64>>, i: int, j: int) -> bool {
    key_lt(keys[i]@, keys[j]@) || (keys[i]@ == keys[j]@ && i < j)
}

/// `r` lists item indices in strictly increasing (key, index) order.
pub open spec fn sorted_by_keys(keys: Seq<Vec<u64>>, r: Seq<usize>) -> bool {
    forall|a: int, b: int| 0 <= a < b < r.len() ==> ordered_before(keys, #[trigger] r[a] as int, #[trigger] r[b] as int)
}

/// `r` lists each index of `lo..hi` exactly once.
pub open spec fn permutes_range(r: Seq<usize>, lo: int, hi: int) -> bool {
    &&& r.len() == hi - lo
    &&& forall|k: int| 0 <= k < r.len() ==> lo <= #[trigger] r[k] < hi
    &&& forall|x: usize| lo <= x < hi ==> #[trigger] r.contains(x)
}

pub proof fn lemma_key_lt_irreflexive(a: Seq<u64>)
    ensures
        !key_lt(a, a),
{
    if key_lt(a, a) {
        let k = choose|k: int| differs_first_at(a, a, k);
    }
}

pub proof fn lemma_key_lt_transitive(a: Seq<u64>, b: Seq<u64>, c: Seq<u64>)
    requires
        key_lt(a, b),
        key_lt(b, c),
    ensures
        key_lt(a, c),
{
    let k1 = choose|k: int| differs_first_at(a, b, k);
    let k2 = choose|k: int| differs_first_at(b, c, k);
    if k1 < k2 {
        assert(differs_first_at(a, c, k1));
    } else if k2 < k1 {
        assert(differs_first_at(a, c, k2));
    } else {
        assert(differs_first_at(a, c, k1));
    }
}

pub proof fn lemma_key_lt_asymmetric(a: Seq<u64>, b: Seq<u64>)
    requires
        key_lt(a, b),
    ensures
        !key_lt(b, a),
{
    if key_lt(b, a) {
        lemma_key_lt_transitive(a, b, a);
        lemma_key_lt_irreflexive(a);
    }
}

pub proof fn lemma_key_lt_total(a: Seq<u64>, b: Seq<u64>)
    ensures
        key_lt(a, b) || key_lt(b, a) || a == b,
{
    let n = if a.len() < b.len() { a.len() } else { b.len() };
    if forall|j: int| 0 <= j < n ==> a[j] == b[j] {
        if a.len() < b.len() {
            assert(differs_first_at(a, b, n as int));
        } else if b.len() < a.len() {
            assert(differs_first_at(b, a, n as int));
        } else {
            assert(a =~= b);
        }
    } else {
        let d = choose|j: int| 0 <= j < n && a[j] != b[j];
        lemma_first_difference(a, b, d);
    }
}

proof fn lemma_first_difference(a: Seq<u64>, b: Seq<u64>, d: int)
    requires
        0 <= d < a.len(),
        d < b.len(),
        a[d] != b[d],
    ensures
        key_lt(a, b) || key_lt(b, a),
    decreases d,
{
    if forall|j: int| 0 <= j < d ==> a[j] == b[j] {
        if a[d] < b[d] {
            assert(differs_first_at(a, b, d));
        } else {
            assert(differs_first_at(b, a, d));
        }
    } else {
        let e = choose|j: int| 0 <= j < d && a[j] != b[j];
        lemma_first_difference(a, b, e);
    }
}

/// `ordered_before` is transitive.
pub proof fn lemma_before_transitive(keys: Seq<Vec<u64>>, i: int, j: int, k: int)
    requires
        ordered_before(keys, i, j),
        ordered_before(keys, j, k),
    ensures
        ordered_before(keys, i, k),
{
    if key_lt(keys[i]@, keys[j]@) && key_lt(keys[j]@, keys[k]@) {
        lemma_key_lt_transitive(keys[i]@, keys[j]@, keys[k]@);
    }
}

/// Whether key `a` is smaller than key `b`.
pub fn less(a: &[u64], b: &[u64]) -> (r: bool)
    ensures
        r == key_lt(a@, b@),
{
    let mut i: usize = 0;
    while i < a.len() && i < b.len()
        invariant
            i <= a@.len(),
            i <= b@.len(),
            forall|j: int| 0 <= j < i ==> a@[j] == b@[j],
        decreases a@.len() - i,
    {
        if a[i] != b[i] {
            if a[i] < b[i] {
                assert(differs_first_at(a@, b@, i as int));
                return true;
            } else {
                assert(differs_first_at(b@, a@, i as int));
                proof {
                    lemma_key_lt_asymmetric(b@, a@);
                }
                return false;
            }
        }
        i = i + 1;
    }
    if i == a.len() && i < b.len() {
        assert(differs_first_at(a@, b@, i as int));
        true
    } else {
        proof {
            if key_lt(a@, b@) {
                let k = choose|k: int| differs_first_at(a@, b@, k);
                assert(false);
            }
        }
        false
    }
}

/// Merges two ordered runs of indices, the first holding `lo..mid` and the
/// second `mid..hi`.
fn merge(keys: &Vec<Vec<u64>>, left: Vec<usize>, right: Vec<usize>, Ghost(lo): Ghost<int>, Ghost(mid): Ghost<int>, Ghost(hi): Ghost<int>) -> (r: Vec<usize>)
    requires
        0 <= lo <= mid <= hi <= keys@.len(),
        permutes_range(left@, lo, mid),
        permutes_range(right@, mid, hi),
        sorted_by_keys(keys@, left@),
        sorted_by_keys(keys@, right@),
    ensures
        permutes_range(r@, lo, hi),
        sorted_by_keys(keys@, r@),
{
    let mut out: Vec<usize> = Vec::new();
    let mut i: usize = 0;
    let mut j: usize = 0;
    while i < left.len() || j < right.len()
        invariant
            0 <= lo <= mid <= hi <= keys@.len(),
            permutes_range(left@, lo, mid),
            permutes_range(right@, mid, hi),
            sorted_by_keys(keys@, left@),
            sorted_by_keys(keys@, right@),
            i <= left@.len(),
            j <= right@.len(),
            out@.len() == i + j,
            forall|k: int| 0 <= k < out@.len() ==> lo <= #[trigger] out@[k] < hi,
            forall|x: usize| out@.contains(x) <==> (left@.take(i as int).contains(x) || right@.take(j as int).contains(x)),
            sorted_by_keys(keys@, out@),
            out@.len() > 0 && i < left@.len() ==> ordered_before(keys@, out@.last() as int, left@[i as int] as int),
            out@.len() > 0 && j < right@.len() ==> ordered_before(keys@, out@.last() as int, right@[j as int] as int),
        decreases left@.len() + right@.len() - i - j,
    {
        let take_left = if i < left.len() && j < right.len() {
            !less(keys[right[j]].as_slice(), keys[left[i]].as_slice())
        } else {
            i < left.len()
        };
        let ghost old_out = out@;
        proof {
            broadcast use vstd::seq_lib::lemma_seq_contains_after_push;
        }
        if take_left {
            let x = left[i];
            proof {
                if j < right@.len() {
                    // a left index is smaller than every right index
                    assert(x < mid);
                    assert(right@[j as int] >= mid);
                    lemma_key_lt_total(keys@[x as int]@, keys@[right@[j as int] as int]@);
                    assert(ordered_before(keys@, x as int, right@[j as int] as int));
                }
                assert forall|a: int, b: int| 0 <= a < b < old_out.len() + 1 implies ordered_before(keys@, #[trigger] old_out.push(x)[a] as int, #[trigger] old_out.push(x)[b] as int) by {
                    if b == old_out.len() {
                        if a < old_out.len() - 1 {
                            assert(ordered_before(keys@, old_out[a] as int, old_out.last() as int));
                            lemma_before_transitive(keys@, old_out[a] as int, old_out.last() as int, x as int);
                        }
                    } else {
                        assert(old_out.push(x)[a] == old_out[a]);
                        assert(old_out.push(x)[b] == old_out[b]);
                    }
                }
                assert(left@.take(i + 1) =~= left@.take(i as int).push(x));
                if i + 1 < left@.len() {
                    assert(ordered_before(keys@, left@[i as int] as int, left@[i + 1] as int));
                }
            }
            out.push(x);
            i = i + 1;
            proof {
                broadcast use vstd::seq_lib::lemma_seq_contains_after_push;
                assert(out@ == old_out.push(x));
            }
        } else {
            let x = right[j];
            proof {
                if i < left@.len() {
                    assert(ordered_before(keys@, x as int, left@[i as int] as int));
                }
                assert forall|a: int, b: int| 0 <= a < b < old_out.len() + 1 implies ordered_before(keys@, #[trigger] old_out.push(x)[a] as int, #[trigger] old_out.push(x)[b] as int) by {
                    if b == old_out.len() {
                        if a < old_out.len() - 1 {
                            assert(ordered_before(keys@, old_out[a] as int, old_out.last() as int));
                            lemma_before_transitive(keys@, old_out[a] as int, old_out.last() as int, x as int);
                        }
                    } else {
                        assert(old_out.push(x)[a] == old_out[a]);
                        assert(old_out.push(x)[b] == old_out[b]);
                    }
                }
                assert(right@.take(j + 1) =~= right@.take(j as int).push(x));
                if j + 1 < right@.len() {
                    assert(ordered_before(keys@, right@[j as int] as int, right@[j + 1] as int));
                }
            }
            out.push(x);
            j = j + 1;
            proof {
                broadcast use vstd::seq_lib::lemma_seq_contains_after_push;
                assert(out@ == old_out.push(x));
            }
        }
    }
    assert(left@.take(left@.len() as int) =~= left@);
    assert(right@.take(right@.len() as int) =~= right@);
    assert forall|x: usize| lo <= x < hi implies #[trigger] out@.contains(x) by {
        if x < mid {
            assert(left@.contains(x));
        } else {
            assert(right@.contains(x));
        }
    }
    out
}

/// The indices `lo..hi` ordered by (key, index).
fn sort_range(keys: &Vec<Vec<u64>>, lo: usize, hi: usize) -> (r: Vec<usize>)
    requires
        lo < hi <= keys@.len(),
    ensures
        permutes_range(r@, lo as int, hi as int),
        sorted_by_keys(keys@, r@),
    decreases hi - lo,
{
    if hi - lo == 1 {
        let mut r: Vec<usize> = Vec::new();
        r.push(lo);
        assert(r@[0] == lo);
        return r;
    }
    let mid = lo + (hi - lo) / 2;
    let left = sort_range(keys, lo, mid);
    let right = sort_range(keys, mid, hi);
    merge(keys, left, right, Ghost(lo as int), Ghost(mid as int), Ghost(hi as int))
}

/// The positions of `keys` in increasing key order, equal keys keeping
/// their input order: a stable sort, given as the permutation it applies.
pub fn sort_indices(keys: &Vec<Vec<u64>>) -> (r: Vec<usize>)
    ensures
        permutes_range(r@, 0, keys@.len() as int),
        sorted_by_keys(keys@, r@),
{
    if keys.len() == 0 {
        return Vec::new();
    }
    sort_range(keys, 0, keys.len())
}

} // verus!
