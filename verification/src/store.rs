//! Frecency and bookmark records.
//!
//! The store records, per absolute path, how often it was accepted, when it
//! was last accepted and whether it is bookmarked. The frecency score
//! (frequency weighted by recency) orders the jump list. Reading and writing
//! the store file is left to the program; this module holds the records and
//! their rules.

use vstd::prelude::*;
use vstd::string::*;
use crate::order::{key_lt, differs_first_at, ordered_before, permutes_range, sort_indices, sorted_by_keys};
use crate::text::str_eq;

verus! {

/// What the store knows about one directory.
#[derive(Clone, Copy, PartialEq, Eq, Structural, Debug)]
pub struct Record {
    /// How many times the directory was accepted.
    pub count: u64,
    /// When it was last accepted, in seconds since the Unix epoch.
    pub last_access: u64,
    pub bookmarked: bool,
}

/// The record of a directory the store has not seen yet.
pub open spec fn empty_record() -> Record {
    Record { count: 0, last_access: 0, bookmarked: false }
}

impl Default for Record {
    fn default() -> (r: Record)
        ensures
            r == empty_record(),
    {
        Record { count: 0, last_access: 0, bookmarked: false }
    }
}

/// The records, one per path.
pub struct Store {
    entries: Vec<(String, Record)>,
}

/// No path occurs twice in `es`.
pub open spec fn unique_paths(es: Seq<(String, Record)>) -> bool {
    forall|i: int, j: int| 0 <= i < j < es.len() ==> (#[trigger] es[i]).0@ != (#[trigger] es[j]).0@
}

/// The position of `path` in `es`.
pub open spec fn position_of(es: Seq<(String, Record)>, path: Seq<char>) -> int {
    choose|i: int| 0 <= i < es.len() && es[i].0@ == path
}

/// `path` has a record in `es`.
pub open spec fn has_path(es: Seq<(String, Record)>, path: Seq<char>) -> bool {
    exists|i: int| 0 <= i < es.len() && (#[trigger] es[i]).0@ == path
}

/// The records of `es` as a map from path to record.
pub open spec fn records_of(es: Seq<(String, Record)>) -> Map<Seq<char>, Record> {
    Map::new(|p: Seq<char>| has_path(es, p), |p: Seq<char>| es[position_of(es, p)].1)
}

impl View for Store {
    type V = Map<Seq<char>, Record>;

    closed spec fn view(&self) -> Map<Seq<char>, Record> {
        records_of(self.entries@)
    }
}

/// The record that `path` has in `m`, or the empty record.
pub open spec fn record_or_default(m: Map<Seq<char>, Record>, path: Seq<char>) -> Record {
    if m.contains_key(path) { m[path] } else { empty_record() }
}

/// The record after one more access at time `now`.
pub open spec fn accessed(rec: Record, now: u64) -> Record {
    Record { count: (rec.count + 1) as u64, last_access: now, bookmarked: rec.bookmarked }
}

/// The record with its bookmark flipped.
pub open spec fn toggled(rec: Record) -> Record {
    Record { count: rec.count, last_access: rec.last_access, bookmarked: !rec.bookmarked }
}

/// The current time in seconds since the Unix epoch, `0` if the clock reads
/// earlier (`SystemTime::now`). Nothing is claimed of the value.
#[verifier::external_body]
fn now_secs() -> u64 {
    std::time::SystemTime::now()
        .duration_since(std::time::UNIX_EPOCH)
        .map(|d| d.as_secs())
        .unwrap_or(0)
}

/// `now` is a reading of the clock: a value that `now_secs`, the current
/// time in seconds since the Unix epoch, can return.
pub closed spec fn clock_reading(now: u64) -> bool {
    call_ensures(now_secs, (), now)
}

/// `is_dir` is what `path_is_dir` can report of `path`: whether the disk
/// holds a directory there.
pub closed spec fn dir_reading(path: Seq<char>, is_dir: bool) -> bool {
    exists|p: &str| p@ == path && #[trigger] call_ensures(path_is_dir, (p,), is_dir)
}

/// Whether `path` names a directory on disk, following symlinks
/// (`Path::is_dir`). It depends on the disk; nothing is claimed.
#[verifier::external_body]
fn path_is_dir(path: &str) -> bool {
    std::path::Path::new(path).is_dir()
}

impl Store {
    #[verifier::type_invariant]
    spec fn inv(self) -> bool {
        unique_paths(self.entries@)
    }

    /// The records in store order.
    pub closed spec fn entry_seq(self) -> Seq<(String, Record)> {
        self.entries@
    }

    /// An empty store.
    pub fn new() -> (s: Store)
        ensures
            s@ == Map::<Seq<char>, Record>::empty(),
    {
        let s = Store { entries: Vec::new() };
        assert(s@ =~= Map::<Seq<char>, Record>::empty());
        s
    }

    /// The records, in store order; each path occurs once.
    pub fn entries(&self) -> (r: &Vec<(String, Record)>)
        ensures
            r@ == self.entry_seq(),
            unique_paths(r@),
            self@ == records_of(r@),
    {
        proof {
            use_type_invariant(self);
        }
        &self.entries
    }

    /// Where `path` sits in the records.
    fn position(&self, path: &str) -> (r: Option<usize>)
        ensures
            r matches Some(i) ==> i < self.entries@.len() && self.entries@[i as int].0@ == path@,
            r is None ==> !has_path(self.entries@, path@),
    {
        let mut i: usize = 0;
        while i < self.entries.len()
            invariant
                i <= self.entries@.len(),
                forall|j: int| 0 <= j < i ==> (#[trigger] self.entries@[j]).0@ != path@,
            decreases self.entries@.len() - i,
        {
            if str_eq(self.entries[i].0.as_str(), path) {
                return Some(i);
            }
            i = i + 1;
        }
        None
    }

    /// Records `rec` for `path`, replacing any record it had.
    fn put(&mut self, path: &str, rec: Record)
        ensures
            final(self)@ == old(self)@.insert(path@, rec),
            final(self).entry_seq().len() == old(self).entry_seq().len() + if old(self)@.contains_key(path@) { 0int } else { 1int },
    {
        proof {
            use_type_invariant(&*self);
        }
        let ghost old_es = self.entries@;
        match self.position(path) {
            Some(i) => {
                let key = self.entries[i].0.clone();
                let mut es: Vec<(String, Record)> = Vec::new();
                std::mem::swap(&mut es, &mut self.entries);
                es.set(i, (key, rec));
                proof {
                    lemma_unique_update(old_es, i as int, rec);
                }
                self.entries = es;
            },
            None => {
                let mut es: Vec<(String, Record)> = Vec::new();
                std::mem::swap(&mut es, &mut self.entries);
                let key = String::from_str(path);
                proof {
                    lemma_unique_push(old_es, key, rec);
                }
                es.push((key, rec));
                self.entries = es;
            },
        }
    }

    /// The record of `path`, or the empty record.
    fn get(&self, path: &str) -> (r: Record)
        ensures
            r == record_or_default(self@, path@),
    {
        proof {
            use_type_invariant(self);
        }
        match self.position(path) {
            Some(i) => {
                proof {
                    lemma_position_unique(self.entries@, i as int);
                }
                self.entries[i].1
            },
            None => Record::default(),
        }
    }

    /// Records that `path` was accepted at time `now`: one more access, and
    /// `now` as the last one; the bookmark is kept.
    pub fn record_access_at(&mut self, path: &str, now: u64)
        requires
            record_or_default(old(self)@, path@).count < u64::MAX,
        ensures
            final(self)@ == old(self)@.insert(path@, accessed(record_or_default(old(self)@, path@), now)),
    {
        let mut rec = self.get(path);
        rec.count = rec.count + 1;
        rec.last_access = now;
        self.put(path, rec);
    }

    /// Records that `path` was accepted now: bumps frequency and recency.
    pub fn record_access(&mut self, path: &str)
        requires
            record_or_default(old(self)@, path@).count < u64::MAX,
        ensures
            exists|now: u64| clock_reading(now) && final(self)@ == old(self)@.insert(path@, #[trigger] accessed(record_or_default(old(self)@, path@), now)),
    {
        let clock = now_secs;
        let now = clock();
        self.record_access_at(path, now);
    }

    /// Flips the bookmark flag of `path`, creating its record if needed, and
    /// returns the new flag.
    pub fn toggle_bookmark(&mut self, path: &str) -> (on: bool)
        ensures
            final(self)@ == old(self)@.insert(path@, toggled(record_or_default(old(self)@, path@))),
            on == !record_or_default(old(self)@, path@).bookmarked,
    {
        let mut rec = self.get(path);
        rec.bookmarked = !rec.bookmarked;
        self.put(path, rec);
        rec.bookmarked
    }

    /// Whether `path` is bookmarked.
    pub fn is_bookmarked(&self, path: &str) -> (r: bool)
        ensures
            r == (self@.contains_key(path@) && self@[path@].bookmarked),
    {
        self.get(path).bookmarked
    }
}

proof fn lemma_position_unique(es: Seq<(String, Record)>, i: int)
    requires
        unique_paths(es),
        0 <= i < es.len(),
    ensures
        has_path(es, es[i].0@),
        position_of(es, es[i].0@) == i,
{
    assert(has_path(es, es[i].0@));
    let p = position_of(es, es[i].0@);
    if p != i {
        if p < i {
            assert(es[p].0@ != es[i].0@);
        } else {
            assert(es[i].0@ != es[p].0@);
        }
    }
}

proof fn lemma_unique_update(es: Seq<(String, Record)>, i: int, rec: Record)
    requires
        unique_paths(es),
        0 <= i < es.len(),
    ensures
        unique_paths(es.update(i, (es[i].0, rec))),
        records_of(es.update(i, (es[i].0, rec))) == records_of(es).insert(es[i].0@, rec),
{
    let ns = es.update(i, (es[i].0, rec));
    assert forall|a: int, b: int| 0 <= a < b < ns.len() implies (#[trigger] ns[a]).0@ != (#[trigger] ns[b]).0@ by {
        assert(es[a].0@ != es[b].0@);
    }
    let k = es[i].0@;
    assert forall|p: Seq<char>| has_path(ns, p) <==> (has_path(es, p) || p == k) by {
        if has_path(ns, p) {
            let j = choose|j: int| 0 <= j < ns.len() && (#[trigger] ns[j]).0@ == p;
            assert(es[j].0@ == p);
        }
        if has_path(es, p) {
            let j = choose|j: int| 0 <= j < es.len() && (#[trigger] es[j]).0@ == p;
            assert(ns[j].0@ == p);
        }
        if p == k {
            assert(ns[i].0@ == p);
        }
    }
    assert forall|p: Seq<char>| has_path(ns, p) implies #[trigger] ns[position_of(ns, p)].1 == records_of(es).insert(k, rec)[p] by {
        let j = position_of(ns, p);
        lemma_position_unique(ns, j);
        if p == k {
            lemma_position_unique(ns, i);
        } else {
            lemma_position_unique(es, j);
        }
    }
    assert(records_of(ns) =~= records_of(es).insert(k, rec));
}

proof fn lemma_unique_push(es: Seq<(String, Record)>, path: String, rec: Record)
    requires
        unique_paths(es),
        !has_path(es, path@),
    ensures
        unique_paths(es.push((path, rec))),
        records_of(es.push((path, rec))) == records_of(es).insert(path@, rec),
{
    let ns = es.push((path, rec));
    assert forall|a: int, b: int| 0 <= a < b < ns.len() implies (#[trigger] ns[a]).0@ != (#[trigger] ns[b]).0@ by {
        if b == es.len() {
            assert(ns[a] == es[a]);
        } else {
            assert(es[a].0@ != es[b].0@);
        }
    }
    assert forall|p: Seq<char>| has_path(ns, p) <==> (has_path(es, p) || p == path@) by {
        if has_path(ns, p) {
            let j = choose|j: int| 0 <= j < ns.len() && (#[trigger] ns[j]).0@ == p;
            if j < es.len() {
                assert(es[j].0@ == p);
            }
        }
        if has_path(es, p) {
            let j = choose|j: int| 0 <= j < es.len() && (#[trigger] es[j]).0@ == p;
            assert(ns[j].0@ == p);
        }
        if p == path@ {
            assert(ns[es.len() as int].0@ == p);
        }
    }
    assert forall|p: Seq<char>| has_path(ns, p) implies #[trigger] ns[position_of(ns, p)].1 == records_of(es).insert(path@, rec)[p] by {
        let j = position_of(ns, p);
        lemma_position_unique(ns, j);
        if p == path@ {
            lemma_position_unique(ns, es.len() as int);
        } else {
            assert(j < es.len());
            assert(ns[j] == es[j]);
            lemma_position_unique(es, j);
        }
    }
    assert(records_of(ns) =~= records_of(es).insert(path@, rec));
}


impl Default for Store {
    fn default() -> (s: Store)
        ensures
            s@ == Map::<Seq<char>, Record>::empty(),
    {
        Store::new()
    }
}

impl Store {
    /// A store holding `records`; where a path occurs more than once the
    /// later record wins, as in a map built by inserting them in order.
    pub fn from_records(records: Vec<(String, Record)>) -> (s: Store)
        ensures
            forall|p: Seq<char>| #[trigger] s@.contains_key(p) <==> has_path(records@, p),
            forall|i: int| 0 <= i < records@.len() && (forall|j: int| i < j < records@.len() ==> (#[trigger] records@[j]).0@ != records@[i].0@)
                ==> s@[#[trigger] records@[i].0@] == records@[i].1,
    {
        let mut s = Store::new();
        let mut i: usize = 0;
        while i < records.len()
            invariant
                i <= records@.len(),
                forall|p: Seq<char>| #[trigger] s@.contains_key(p) <==> has_path(records@.take(i as int), p),
                forall|k: int| 0 <= k < i && (forall|j: int| k < j < i ==> (#[trigger] records@[j]).0@ != records@[k].0@)
                    ==> s@[#[trigger] records@[k].0@] == records@[k].1,
            decreases records@.len() - i,
        {
            let ghost old_s = s@;
            s.put(records[i].0.as_str(), records[i].1);
            proof {
                let t = records@.take(i as int);
                let t1 = records@.take(i + 1);
                assert(t1 =~= t.push(records@[i as int]));
                assert forall|p: Seq<char>| #[trigger] s@.contains_key(p) <==> has_path(t1, p) by {
                    if has_path(t1, p) {
                        let j = choose|j: int| 0 <= j < t1.len() && (#[trigger] t1[j]).0@ == p;
                        if j < i {
                            assert(t[j] == t1[j]);
                            assert(has_path(t, p));
                        }
                    }
                    if has_path(t, p) {
                        let j = choose|j: int| 0 <= j < t.len() && (#[trigger] t[j]).0@ == p;
                        assert(t1[j] == t[j]);
                    }
                    if p == records@[i as int].0@ {
                        assert(t1[i as int].0@ == p);
                    }
                }
            }
            i = i + 1;
        }
        assert(records@.take(records@.len() as int) =~= records@);
        s
    }
}

/// A directory of the jump list with its rank.
pub struct RankedDir {
    pub path: String,
    /// Frecency in quarter units: the count times 16, 8, 2 or 1 for an age
    /// under an hour, a day, a week, or more.
    pub score: u128,
    pub bookmarked: bool,
}

/// How much one access counts, in quarter units, after `age` seconds.
pub open spec fn recency_weight(age: int) -> int {
    if age < 3600 {
        16
    } else if age < 86_400 {
        8
    } else if age < 604_800 {
        2
    } else {
        1
    }
}

/// Frequency scaled by how recently the record was last used, in quarter
/// units (so a weight of 4 is 16 and a weight of 0.25 is 1).
pub open spec fn frecency(rec: Record, now: u64) -> int {
    let age = if now >= rec.last_access { now - rec.last_access } else { 0 };
    rec.count * recency_weight(age)
}

/// The jump-list entry of a record.
pub open spec fn ranked_dir_of(e: (String, Record), now: u64) -> RankedDir {
    RankedDir { path: e.0, score: frecency(e.1, now) as u128, bookmarked: e.1.bookmarked }
}

/// `a` may stand before `b` in the jump list: bookmarks first, then by
/// descending frecency.
pub open spec fn ranks_higher(a: RankedDir, b: RankedDir) -> bool {
    (a.bookmarked && !b.bookmarked) || (a.bookmarked == b.bookmarked && a.score >= b.score)
}

/// `r` is the jump list of the records `es` at time `now`, keeping those
/// whose flag in `present` is set: each of them once, bookmarks first, then
/// by descending frecency.
pub open spec fn ranked_result(es: Seq<(String, Record)>, now: u64, present: Seq<bool>, r: Seq<RankedDir>) -> bool {
    &&& forall|k: int| 0 <= k < r.len() ==> kept_entry(es, now, present, #[trigger] r[k])
    &&& forall|j: int| 0 <= j < es.len() && present[j] ==> exists|k: int| 0 <= k < r.len() && #[trigger] ranked_entry(es, now, present, r[k], j)
    &&& forall|a: int, b: int| 0 <= a < b < r.len() ==> (#[trigger] r[a]).path@ != (#[trigger] r[b]).path@
    &&& forall|a: int, b: int| 0 <= a < b < r.len() ==> ranks_higher(#[trigger] r[a], #[trigger] r[b])
}

/// `d` is the jump-list entry of the `j`-th record, which is kept.
pub open spec fn ranked_entry(es: Seq<(String, Record)>, now: u64, present: Seq<bool>, d: RankedDir, j: int) -> bool {
    0 <= j < es.len() && present[j] && d == ranked_dir_of(es[j], now)
}

/// `d` is the jump-list entry of some kept record.
pub open spec fn kept_entry(es: Seq<(String, Record)>, now: u64, present: Seq<bool>, d: RankedDir) -> bool {
    exists|j: int| ranked_entry(es, now, present, d, j)
}

/// The frecency of `rec` at time `now`.
fn score(rec: &Record, now: u64) -> (s: u128)
    ensures
        s == frecency(*rec, now),
{
    let age = if now >= rec.last_access { now - rec.last_access } else { 0 };
    let mult: u128 = if age < 3600 {
        16
    } else if age < 86_400 {
        8
    } else if age < 604_800 {
        2
    } else {
        1
    };
    assert(rec.count * mult <= u64::MAX * 16) by (nonlinear_arith)
        requires
            mult <= 16,
    ;
    rec.count as u128 * mult
}

/// Spread of a frecency so that a higher score gives a smaller key.
pub open spec fn score_key_max() -> int {
    0x1_0000_0000_0000_0000_0
}

proof fn lemma_split_key(d1: int, d2: int)
    requires
        0 <= d1,
        0 <= d2,
    ensures
        (d1 < d2) <==> (d1 / 0x1_0000_0000_0000_0000 < d2 / 0x1_0000_0000_0000_0000
            || (d1 / 0x1_0000_0000_0000_0000 == d2 / 0x1_0000_0000_0000_0000
                && d1 % 0x1_0000_0000_0000_0000 < d2 % 0x1_0000_0000_0000_0000)),
{
    let m: int = 0x1_0000_0000_0000_0000;
    assert(d1 == m * (d1 / m) + d1 % m) by (nonlinear_arith)
        requires
            m > 0,
    ;
    assert(d2 == m * (d2 / m) + d2 % m) by (nonlinear_arith)
        requires
            m > 0,
    ;
    assert(0 <= d1 % m < m && 0 <= d2 % m < m) by (nonlinear_arith)
        requires
            m > 0,
    ;
    let h1 = d1 / m;
    let h2 = d2 / m;
    if h1 < h2 {
        assert(m * h1 + m <= m * h2) by (nonlinear_arith)
            requires
                h1 < h2,
                m > 0,
        ;
    } else if h1 > h2 {
        assert(m * h2 + m <= m * h1) by (nonlinear_arith)
            requires
                h2 < h1,
                m > 0,
        ;
    }
}

proof fn lemma_three_key_lt(a: Seq<u64>, b: Seq<u64>)
    requires
        a.len() == 3,
        b.len() == 3,
    ensures
        key_lt(a, b) <==> (a[0] < b[0] || (a[0] == b[0] && (a[1] < b[1] || (a[1] == b[1] && a[2] < b[2])))),
{
    if a[0] < b[0] {
        assert(differs_first_at(a, b, 0));
    } else if a[0] == b[0] && a[1] < b[1] {
        assert(differs_first_at(a, b, 1));
    } else if a[0] == b[0] && a[1] == b[1] && a[2] < b[2] {
        assert(differs_first_at(a, b, 2));
    }
    if key_lt(a, b) {
        let k = choose|k: int| differs_first_at(a, b, k);
        if k == 1 {
            assert(a[0] == b[0]);
        } else if k == 2 {
            assert(a[0] == b[0]);
            assert(a[1] == b[1]);
        }
    }
}

/// The sort key of a jump-list entry.
pub open spec fn rank_key(rec: Record, now: u64) -> Seq<u64> {
    let d = score_key_max() - frecency(rec, now);
    seq![if rec.bookmarked { 0u64 } else { 1u64 }, (d / 0x1_0000_0000_0000_0000) as u64, (d % 0x1_0000_0000_0000_0000) as u64]
}

fn rank_key_of(rec: &Record, now: u64) -> (k: Vec<u64>)
    ensures
        k@ == rank_key(*rec, now),
{
    let s = score(rec, now);
    let d: u128 = 0x1_0000_0000_0000_0000_0 - s;
    let mut k: Vec<u64> = Vec::new();
    k.push(if rec.bookmarked { 0 } else { 1 });
    k.push((d / 0x1_0000_0000_0000_0000) as u64);
    k.push((d % 0x1_0000_0000_0000_0000) as u64);
    assert(k@ =~= rank_key(*rec, now));
    k
}

proof fn lemma_rank_key_order(r1: Record, r2: Record, now: u64)
    requires
        key_lt(rank_key(r1, now), rank_key(r2, now)) || rank_key(r1, now) == rank_key(r2, now),
    ensures
        ranks_higher(ranked_dir_of((arbitrary(), r1), now), ranked_dir_of((arbitrary(), r2), now)),
{
    let k1 = rank_key(r1, now);
    let k2 = rank_key(r2, now);
    lemma_three_key_lt(k1, k2);
    let d1 = score_key_max() - frecency(r1, now);
    let d2 = score_key_max() - frecency(r2, now);
    assert(frecency(r1, now) <= u64::MAX * 16) by (nonlinear_arith)
        requires
            r1.count <= u64::MAX,
            frecency(r1, now) == r1.count * recency_weight(if now >= r1.last_access { now - r1.last_access } else { 0 }),
            recency_weight(if now >= r1.last_access { now - r1.last_access } else { 0 }) <= 16,
    ;
    assert(frecency(r2, now) <= u64::MAX * 16) by (nonlinear_arith)
        requires
            r2.count <= u64::MAX,
            frecency(r2, now) == r2.count * recency_weight(if now >= r2.last_access { now - r2.last_access } else { 0 }),
            recency_weight(if now >= r2.last_access { now - r2.last_access } else { 0 }) <= 16,
    ;
    assert(frecency(r1, now) >= 0 && frecency(r2, now) >= 0);
    lemma_split_key(d1, d2);
    assert(d1 / 0x1_0000_0000_0000_0000 <= 16) by (nonlinear_arith)
        requires
            0 <= d1 <= 0x1_0000_0000_0000_0000_0,
    ;
    assert(d2 / 0x1_0000_0000_0000_0000 <= 16) by (nonlinear_arith)
        requires
            0 <= d2 <= 0x1_0000_0000_0000_0000_0,
    ;
    assert(0 <= d1 % 0x1_0000_0000_0000_0000 < 0x1_0000_0000_0000_0000);
    assert(0 <= d2 % 0x1_0000_0000_0000_0000 < 0x1_0000_0000_0000_0000);
    if k1 == k2 {
        assert(k1[1] == k2[1] && k1[2] == k2[2]);
    }
}

impl Store {
    /// The jump list at time `now`, keeping the records whose flag in
    /// `present` is set (`present[i]` says whether the path of the `i`-th
    /// record, in the order of `entries`, still exists): bookmarks first,
    /// then by descending frecency.
    pub fn ranked_from(&self, now: u64, present: &Vec<bool>) -> (r: Vec<RankedDir>)
        requires
            present@.len() == self.entry_seq().len(),
        ensures
            ranked_result(self.entry_seq(), now, present@, r@),
    {
        proof {
            use_type_invariant(self);
        }
        let es = &self.entries;
        let mut idx: Vec<usize> = Vec::new();
        let mut keys: Vec<Vec<u64>> = Vec::new();
        let mut i: usize = 0;
        while i < es.len()
            invariant
                es@ == self.entries@,
                present@.len() == es@.len(),
                i <= es@.len(),
                idx@.len() == keys@.len(),
                forall|k: int| 0 <= k < idx@.len() ==> #[trigger] idx@[k] < i && present@[idx@[k] as int],
                forall|a: int, b: int| 0 <= a < b < idx@.len() ==> #[trigger] idx@[a] < #[trigger] idx@[b],
                forall|k: int| 0 <= k < idx@.len() ==> #[trigger] keys@[k]@ == rank_key(es@[idx@[k] as int].1, now),
                forall|j: usize| j < i && present@[j as int] ==> #[trigger] idx@.contains(j),
            decreases es@.len() - i,
        {
            if present[i] {
                let key = rank_key_of(&es[i].1, now);
                idx.push(i);
                keys.push(key);
            }
            proof {
                broadcast use vstd::seq_lib::lemma_seq_contains_after_push;
            }
            i = i + 1;
        }
        let perm = sort_indices(&keys);
        let mut r: Vec<RankedDir> = Vec::new();
        let mut k: usize = 0;
        while k < perm.len()
            invariant
                es@ == self.entries@,
                k <= perm@.len(),
                permutes_range(perm@, 0, keys@.len() as int),
                idx@.len() == keys@.len(),
                forall|m: int| 0 <= m < idx@.len() ==> #[trigger] idx@[m] < es@.len(),
                r@.len() == k,
                forall|m: int| 0 <= m < k ==> #[trigger] r@[m] == ranked_dir_of(es@[idx@[perm@[m] as int] as int], now),
            decreases perm@.len() - k,
        {
            let j = idx[perm[k]];
            let rec = &es[j].1;
            r.push(RankedDir { path: es[j].0.clone(), score: score(rec, now), bookmarked: rec.bookmarked });
            k = k + 1;
        }
        proof {
            let esq = self.entries@;
            assert forall|a: int, b: int| 0 <= a < b < r@.len() implies ranks_higher(#[trigger] r@[a], #[trigger] r@[b]) by {
                let pa = perm@[a] as int;
                let pb = perm@[b] as int;
                assert(ordered_before(keys@, pa, pb));
                lemma_rank_key_order(esq[idx@[pa] as int].1, esq[idx@[pb] as int].1, now);
            }
            assert forall|a: int, b: int| 0 <= a < b < r@.len() implies (#[trigger] r@[a]).path@ != (#[trigger] r@[b]).path@ by {
                let ja = idx@[perm@[a] as int] as int;
                let jb = idx@[perm@[b] as int] as int;
                assert(perm@[a] != perm@[b]) by {
                    let pa = perm@[a] as int;
                    let pb = perm@[b] as int;
                    assert(ordered_before(keys@, pa, pb));
                    if pa == pb {
                        crate::order::lemma_key_lt_irreflexive(keys@[pa]@);
                    }
                }
                if ja < jb {
                    assert(esq[ja].0@ != esq[jb].0@);
                } else if jb < ja {
                    assert(esq[jb].0@ != esq[ja].0@);
                } else {
                    let pa = perm@[a] as int;
                    let pb = perm@[b] as int;
                    if pa < pb {
                        assert(idx@[pa] < idx@[pb]);
                    } else {
                        assert(idx@[pb] < idx@[pa]);
                    }
                }
            }
            assert forall|k: int| 0 <= k < r@.len() implies kept_entry(esq, now, present@, #[trigger] r@[k]) by {
                let j = idx@[perm@[k] as int] as int;
                assert(present@[j]);
                assert(ranked_entry(esq, now, present@, r@[k], j));
            }
            assert forall|j: int| 0 <= j < esq.len() && present@[j] implies exists|k: int| 0 <= k < r@.len() && #[trigger] ranked_entry(esq, now, present@, r@[k], j) by {
                assert(idx@.contains(j as usize));
                let q = choose|q: int| 0 <= q < idx@.len() && idx@[q] == j as usize;
                assert(perm@.contains(q as usize));
                let m = choose|m: int| 0 <= m < perm@.len() && perm@[m] == q as usize;
                assert(r@[m] == ranked_dir_of(esq[j], now));
                assert(ranked_entry(esq, now, present@, r@[m], j));
            }
        }
        r
    }

    /// All known directories that still exist, sorted for jump mode:
    /// bookmarks first, then by descending frecency at the current time.
    pub fn ranked(&self) -> (r: Vec<RankedDir>)
        ensures
            exists|now: u64, present: Seq<bool>| {
                &&& clock_reading(now)
                &&& present.len() == self.entry_seq().len()
                &&& forall|j: int| 0 <= j < present.len() ==> #[trigger] dir_reading(self.entry_seq()[j].0@, present[j])
                &&& #[trigger] ranked_result(self.entry_seq(), now, present, r@)
            },
    {
        proof {
            use_type_invariant(self);
        }
        let clock = now_secs;
        let now = clock();
        let is_dir = path_is_dir;
        let mut present: Vec<bool> = Vec::new();
        let mut i: usize = 0;
        while i < self.entries.len()
            invariant
                i <= self.entries@.len(),
                present@.len() == i,
                forall|j: int| 0 <= j < i ==> #[trigger] dir_reading(self.entries@[j].0@, present@[j]),
            decreases self.entries@.len() - i,
        {
            let p = self.entries[i].0.as_str();
            let b = is_dir(p);
            assert(dir_reading(self.entries@[i as int].0@, b));
            present.push(b);
            i = i + 1;
        }
        let r = self.ranked_from(now, &present);
        assert(clock_reading(now));
        assert(ranked_result(self.entry_seq(), now, present@, r@));
        r
    }
}


/// Toggling a bookmark twice leaves the store as it was, except that a path
/// the store did not know now has an empty record.
pub proof fn lemma_toggle_twice(m: Map<Seq<char>, Record>, path: Seq<char>)
    ensures
        ({
            let once = m.insert(path, toggled(record_or_default(m, path)));
            let twice = once.insert(path, toggled(record_or_default(once, path)));
            twice == m.insert(path, record_or_default(m, path))
        }),
        m.contains_key(path) ==> m.insert(path, record_or_default(m, path)) == m,
{
    let once = m.insert(path, toggled(record_or_default(m, path)));
    let twice = once.insert(path, toggled(record_or_default(once, path)));
    assert(twice =~= m.insert(path, record_or_default(m, path)));
    if m.contains_key(path) {
        assert(m.insert(path, record_or_default(m, path)) =~= m);
    }
}

/// After a toggle, the path is bookmarked exactly when the toggle said so,
/// and nothing else about its record changed.
pub proof fn lemma_toggle_reports(m: Map<Seq<char>, Record>, path: Seq<char>)
    ensures
        ({
            let after = m.insert(path, toggled(record_or_default(m, path)));
            &&& after.contains_key(path)
            &&& after[path].bookmarked == !record_or_default(m, path).bookmarked
            &&& after[path].count == record_or_default(m, path).count
            &&& after[path].last_access == record_or_default(m, path).last_access
        }),
{
}

/// An access counts once more, records its time, and keeps the bookmark.
pub proof fn lemma_access_counts(m: Map<Seq<char>, Record>, path: Seq<char>, now: u64)
    requires
        record_or_default(m, path).count < u64::MAX,
    ensures
        ({
            let after = m.insert(path, accessed(record_or_default(m, path), now));
            &&& after[path].count == record_or_default(m, path).count + 1
            &&& after[path].last_access == now
            &&& after[path].bookmarked == record_or_default(m, path).bookmarked
            &&& forall|q: Seq<char>| q != path ==> after.contains_key(q) == m.contains_key(q) && (m.contains_key(q) ==> after[q] == m[q])
        }),
{
}

/// A more recent access never lowers frecency: for the same count, a
/// smaller age gives at least the same score.
pub proof fn lemma_frecency_recency(rec: Record, now1: u64, now2: u64)
    requires
        rec.last_access <= now1 <= now2,
    ensures
        frecency(rec, now1) >= frecency(rec, now2),
{
    let w1 = recency_weight(now1 - rec.last_access);
    let w2 = recency_weight(now2 - rec.last_access);
    assert(w1 >= w2);
    assert(rec.count * w1 >= rec.count * w2) by (nonlinear_arith)
        requires
            w1 >= w2,
            rec.count >= 0,
    ;
}

/// `d` lists the `j`-th record, which is kept: same path and bookmark flag.
pub open spec fn lists_record(es: Seq<(String, Record)>, present: Seq<bool>, d: RankedDir, j: int) -> bool {
    &&& 0 <= j < es.len()
    &&& present[j]
    &&& d.path == es[j].0
    &&& d.bookmarked == es[j].1.bookmarked
}

/// `score` weighs the accesses of `rec` by the age of its last access at
/// `now`: sixteen quarters each when it was used less than an hour before
/// `now` (or after it), eight when less than a day, two when less than a
/// week, and one after a week or more.
pub open spec fn scored_by_age(rec: Record, now: u64, score: int) -> bool {
    &&& now < rec.last_access + 3600 ==> score == 16 * rec.count
    &&& rec.last_access + 3600 <= now < rec.last_access + 86_400 ==> score == 8 * rec.count
    &&& rec.last_access + 86_400 <= now < rec.last_access + 604_800 ==> score == 2 * rec.count
    &&& rec.last_access + 604_800 <= now ==> score == rec.count
}

/// `d` lists a kept record of `es`, scored by the age of its last access at
/// `now`.
pub open spec fn listed_by_age(es: Seq<(String, Record)>, now: u64, present: Seq<bool>, d: RankedDir) -> bool {
    exists|j: int| lists_record(es, present, d, j) && scored_by_age(es[j].1, now, d.score as int)
}

/// Every jump-list entry is a kept record, scored by the age of its last
/// access at `now`.
pub proof fn lemma_ranked_scores_by_age(es: Seq<(String, Record)>, now: u64, present: Seq<bool>, r: Seq<RankedDir>)
    requires
        ranked_result(es, now, present, r),
    ensures
        forall|k: int| 0 <= k < r.len() ==> listed_by_age(es, now, present, #[trigger] r[k]),
{
    assert forall|k: int| 0 <= k < r.len() implies listed_by_age(es, now, present, #[trigger] r[k]) by {
        assert(kept_entry(es, now, present, r[k]));
        let j = choose|j: int| ranked_entry(es, now, present, r[k], j);
        let rec = es[j].1;
        assert(rec.count * 16 <= u64::MAX * 16) by (nonlinear_arith)
            requires
                rec.count <= u64::MAX,
        ;
        assert(lists_record(es, present, r[k], j) && scored_by_age(es[j].1, now, r[k].score as int));
    }
}

/// Recent use outranks old use: of two kept records with the same number of
/// accesses and the same bookmark flag, one used less than an hour before
/// `now` is listed before one last used a week or more before `now`.
pub proof fn lemma_ranked_recent_first(es: Seq<(String, Record)>, now: u64, present: Seq<bool>, r: Seq<RankedDir>, ja: int, jb: int)
    requires
        ranked_result(es, now, present, r),
        0 <= ja < es.len(),
        0 <= jb < es.len(),
        present[ja],
        present[jb],
        es[ja].1.count == es[jb].1.count,
        es[ja].1.count > 0,
        es[ja].1.bookmarked == es[jb].1.bookmarked,
        now < es[ja].1.last_access + 3600,
        es[jb].1.last_access + 604_800 <= now,
    ensures
        exists|a: int, b: int| 0 <= a < b < r.len() && r[a].path == es[ja].0 && r[b].path == es[jb].0,
{
    let ka = choose|k: int| 0 <= k < r.len() && #[trigger] ranked_entry(es, now, present, r[k], ja);
    let kb = choose|k: int| 0 <= k < r.len() && #[trigger] ranked_entry(es, now, present, r[k], jb);
    let c = es[ja].1.count;
    assert(r[ka].score == 16 * c) by {
        assert(c * 16 <= u64::MAX * 16) by (nonlinear_arith)
            requires
                c <= u64::MAX,
        ;
    }
    assert(r[kb].score == c);
    if kb <= ka {
        if kb == ka {
            assert(r[ka].score == r[kb].score);
        } else {
            assert(ranks_higher(r[kb], r[ka]));
        }
    }
}

/// An access stamps the record with a reading of the clock, in seconds
/// since the Unix epoch, and counts once more.
pub proof fn lemma_access_stamps_clock(old: Map<Seq<char>, Record>, new: Map<Seq<char>, Record>, path: Seq<char>)
    requires
        exists|now: u64| clock_reading(now) && new == old.insert(path, #[trigger] accessed(record_or_default(old, path), now)),
    ensures
        new.contains_key(path),
        clock_reading(new[path].last_access),
        new[path].count == record_or_default(old, path).count + 1 || record_or_default(old, path).count == u64::MAX,
        new[path].bookmarked == record_or_default(old, path).bookmarked,
{
}

} // verus!
