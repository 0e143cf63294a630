//! The visit history: one record per canonical path, with a visit count and
//! the time of the last visit.

use vstd::prelude::*;
use crate::clock::now_micros;
use crate::ranking::{is_ranking, lemma_ranking_unique, rank_by_key, texts_of};

verus! {

/// A directory that has been visited. `last_visited` is in microseconds
/// since the Unix epoch.
#[derive(Debug)]
pub struct DirectoryRecord {
    pub path: String,
    pub visit_count: u64,
    pub last_visited: i64,
}

/// What a `DirectoryRecord` holds, as mathematical values.
pub struct VisitEntry {
    pub path: Seq<char>,
    pub visit_count: u64,
    pub last_visited: i64,
}

impl View for DirectoryRecord {
    type V = VisitEntry;

    open spec fn view(&self) -> VisitEntry {
        VisitEntry { path: self.path@, visit_count: self.visit_count, last_visited: self.last_visited }
    }
}

impl DirectoryRecord {
    /// A copy of this record.
    pub fn copied(&self) -> (r: DirectoryRecord)
        ensures
            r@ == self@,
    {
        DirectoryRecord {
            path: self.path.clone(),
            visit_count: self.visit_count,
            last_visited: self.last_visited,
        }
    }
}

/// The views of a sequence of records.
pub open spec fn entries(s: Seq<DirectoryRecord>) -> Seq<VisitEntry> {
    s.map_values(|d: DirectoryRecord| d@)
}

/// Paths are unique and every count is positive.
pub open spec fn history_wf(s: Seq<VisitEntry>) -> bool {
    &&& forall|i: int, j: int| 0 <= i < j < s.len() ==> s[i].path != s[j].path
    &&& forall|i: int| 0 <= i < s.len() ==> s[i].visit_count >= 1
}

/// `s` holds a record for `path`.
pub open spec fn has_path(s: Seq<VisitEntry>, path: Seq<char>) -> bool {
    exists|i: int| 0 <= i < s.len() && s[i].path == path
}

/// The position of the record for `path`, where there is one.
pub open spec fn position_of(s: Seq<VisitEntry>, path: Seq<char>) -> int {
    choose|i: int| 0 <= i < s.len() && s[i].path == path
}

/// One more visit, held at the largest count.
pub open spec fn bumped(c: u64) -> u64 {
    if c == u64::MAX {
        c
    } else {
        (c + 1) as u64
    }
}

/// The history after a visit to `path` at time `now`: the record for
/// `path` counts one more visit and takes the new time, or, where there is
/// none, a record with one visit is appended.
pub open spec fn visited(s: Seq<VisitEntry>, path: Seq<char>, now: i64) -> Seq<VisitEntry> {
    if has_path(s, path) {
        let i = position_of(s, path);
        s.update(i, VisitEntry { path, visit_count: bumped(s[i].visit_count), last_visited: now })
    } else {
        s.push(VisitEntry { path, visit_count: 1, last_visited: now })
    }
}

/// The history with `e` stored: it replaces the record for its path, or is
/// appended.
pub open spec fn stored(s: Seq<VisitEntry>, e: VisitEntry) -> Seq<VisitEntry> {
    if has_path(s, e.path) {
        s.update(position_of(s, e.path), e)
    } else {
        s.push(e)
    }
}

/// Ranking keys by visit count.
pub open spec fn count_keys(s: Seq<VisitEntry>) -> Seq<Option<i128>> {
    s.map_values(|e: VisitEntry| Some(e.visit_count as i128))
}

/// Ranking keys by time of last visit.
pub open spec fn time_keys(s: Seq<VisitEntry>) -> Seq<Option<i128>> {
    s.map_values(|e: VisitEntry| Some(e.last_visited as i128))
}

/// The entries of `s` at the positions `idx`, in that order.
pub open spec fn picked(s: Seq<VisitEntry>, idx: Seq<usize>) -> Seq<VisitEntry> {
    idx.map_values(|i: usize| s[i as int])
}

/// The paths of the entries, in storage order.
pub open spec fn paths(s: Seq<VisitEntry>) -> Seq<Seq<char>> {
    s.map_values(|e: VisitEntry| e.path)
}

/// `r` lists the best `limit` entries of `s` by `keys`, best first, the
/// smaller path first on equal keys.
pub open spec fn lists_ranked(
    s: Seq<VisitEntry>,
    keys: Seq<Option<i128>>,
    limit: int,
    r: Seq<VisitEntry>,
) -> bool {
    exists|idx: Seq<usize>| is_ranking(keys, paths(s), limit, idx) && r == picked(s, idx)
}

/// The visit history.
pub struct VisitStore {
    records: Vec<DirectoryRecord>,
}

impl View for VisitStore {
    type V = Seq<VisitEntry>;

    closed spec fn view(&self) -> Seq<VisitEntry> {
        entries(self.records@)
    }
}

impl VisitStore {
    pub open spec fn wf(&self) -> bool {
        history_wf(self@)
    }

    /// An empty history.
    pub fn new() -> (r: VisitStore)
        ensures
            r.wf(),
            r@ == Seq::<VisitEntry>::empty(),
    {
        let r = VisitStore { records: Vec::new() };
        assert(r@ =~= Seq::<VisitEntry>::empty());
        r
    }

    /// Number of records.
    pub fn len(&self) -> (r: usize)
        ensures
            r == self@.len(),
    {
        self.records.len()
    }

    /// Position of the record for `path`.
    pub fn find(&self, path: &str) -> (r: Option<usize>)
        requires
            self.wf(),
        ensures
            r is Some <==> has_path(self@, path@),
            r matches Some(i) ==> i < self@.len() && self@[i as int].path == path@
                && i == position_of(self@, path@),
    {
        let key = path.to_owned();
        let mut i: usize = 0;
        while i < self.records.len()
            invariant
                key@ == path@,
                self.wf(),
                i <= self.records@.len(),
                forall|j: int| 0 <= j < i ==> self@[j].path != path@,
            decreases self.records@.len() - i,
        {
            if self.records[i].path == key {
                assert(self@[i as int].path == path@);
                assert(has_path(self@, path@));
                let ghost p = position_of(self@, path@);
                assert(0 <= p < self@.len() && self@[p].path == path@);
                assert(p == i) by {
                    if p < i {
                        assert(self@[p].path != self@[i as int].path);
                    } else if p > i {
                        assert(self@[i as int].path != self@[p].path);
                    }
                }
                return Some(i);
            }
            i += 1;
        }
        None
    }

    /// Records a visit to `path` at time `now`: an existing record counts
    /// one more visit (held at the largest count) and takes `now` as its
    /// last visit; otherwise a record with one visit is added. Returns the
    /// record as it now stands.
    pub fn upsert_visit(&mut self, path: &str, now: i64) -> (r: DirectoryRecord)
        requires
            old(self).wf(),
        ensures
            final(self).wf(),
            final(self)@ == visited(old(self)@, path@, now),
            r@.path == path@,
            final(self)@.contains(r@),
    {
        let found = self.find(path);
        let ghost s = self@;
        match found {
            Some(i) => {
                let c = self.records[i].visit_count;
                let c2 = if c == u64::MAX { c } else { c + 1 };
                let rec = DirectoryRecord {
                    path: self.records[i].path.clone(),
                    visit_count: c2,
                    last_visited: now,
                };
                let out = rec.copied();
                self.records.set(i, rec);
                assert(self@ =~= visited(s, path@, now));
                assert(self@[i as int] == out@);
                out
            },
            None => {
                let rec = DirectoryRecord { path: path.to_owned(), visit_count: 1, last_visited: now };
                let out = rec.copied();
                self.records.push(rec);
                assert(self@ =~= visited(s, path@, now));
                assert(self@[s.len() as int] == out@);
                out
            },
        }
    }

    /// Records a visit to `path` at time `now`, provided `is_dir` says that
    /// `path` is an existing directory; otherwise the history is left as it
    /// is and nothing is returned.
    pub fn record_visit(&mut self, path: &str, is_dir: bool, now: i64) -> (r: Option<
        DirectoryRecord,
    >)
        requires
            old(self).wf(),
        ensures
            final(self).wf(),
            r is Some <==> is_dir,
            is_dir ==> final(self)@ == visited(old(self)@, path@, now),
            !is_dir ==> final(self)@ == old(self)@,
            r matches Some(d) ==> d@.path == path@ && final(self)@.contains(d@),
    {
        if is_dir {
            Some(self.upsert_visit(path, now))
        } else {
            None
        }
    }

    /// Records a visit to `path` at the current time, provided `is_dir`
    /// says that `path` is an existing directory.
    pub fn record_visit_now(&mut self, path: &str, is_dir: bool) -> (r: Option<DirectoryRecord>)
        requires
            old(self).wf(),
        ensures
            final(self).wf(),
            r is Some <==> is_dir,
            r matches Some(d) ==> d@.path == path@ && final(self)@ == visited(
                old(self)@,
                path@,
                d.last_visited,
            ),
            !is_dir ==> final(self)@ == old(self)@,
    {
        if is_dir {
            let now = now_micros();
            let d = self.upsert_visit(path, now);
            proof {
                let s = self@;
                let j = choose|j: int| 0 <= j < s.len() && s[j] == d@;
                assert(s[j].path == path@);
                assert(has_path(s, path@));
                assert(s[j].last_visited == now) by {
                    let o = old(self)@;
                    if has_path(o, path@) {
                        let k = position_of(o, path@);
                        if j != k {
                            assert(s[j] == o[j]);
                            assert(o[j].path == o[k].path);
                        }
                    } else if j != o.len() {
                        assert(s[j] == o[j]);
                    }
                }
            }
            Some(d)
        } else {
            None
        }
    }

    /// Stores a record read back from persistent storage: it replaces the
    /// record for its path, or is added. A record with no visits is refused
    /// and leaves the history as it is.
    pub fn load_record(&mut self, rec: DirectoryRecord) -> (r: bool)
        requires
            old(self).wf(),
        ensures
            final(self).wf(),
            r == (rec.visit_count >= 1),
            r ==> final(self)@ == stored(old(self)@, rec@),
            !r ==> final(self)@ == old(self)@,
    {
        if rec.visit_count == 0 {
            return false;
        }
        let found = self.find(rec.path.as_str());
        let ghost s = self@;
        let ghost e = rec@;
        match found {
            Some(i) => {
                self.records.set(i, rec);
                assert(self@ =~= stored(s, e));
            },
            None => {
                self.records.push(rec);
                assert(self@ =~= stored(s, e));
            },
        }
        true
    }

    /// Copies of the records at the positions `idx`, in that order.
    fn pick(&self, idx: &Vec<usize>) -> (r: Vec<DirectoryRecord>)
        requires
            forall|k: int| 0 <= k < idx@.len() ==> idx@[k] < self@.len(),
        ensures
            entries(r@) == picked(self@, idx@),
    {
        let mut r: Vec<DirectoryRecord> = Vec::new();
        let mut k: usize = 0;
        while k < idx.len()
            invariant
                k <= idx@.len(),
                forall|j: int| 0 <= j < idx@.len() ==> idx@[j] < self@.len(),
                entries(r@) =~= picked(self@, idx@).take(k as int),
            decreases idx@.len() - k,
        {
            let d = self.records[idx[k]].copied();
            let ghost before = r@;
            r.push(d);
            assert(entries(r@) =~= entries(before).push(d@));
            assert(d@ == self@[idx@[k as int] as int]);
            k += 1;
        }
        assert(picked(self@, idx@).take(k as int) =~= picked(self@, idx@));
        r
    }

    /// The best `n` records, by visit count when `by_count`, else by time of
    /// last visit; the smaller path first on ties.
    fn ranked(&self, by_count: bool, n: usize) -> (r: Vec<DirectoryRecord>)
        ensures
            lists_ranked(
                self@,
                if by_count {
                    count_keys(self@)
                } else {
                    time_keys(self@)
                },
                n as int,
                entries(r@),
            ),
    {
        let ghost want = if by_count {
            count_keys(self@)
        } else {
            time_keys(self@)
        };
        let mut keys: Vec<Option<i128>> = Vec::new();
        let mut texts: Vec<String> = Vec::new();
        let mut i: usize = 0;
        while i < self.records.len()
            invariant
                i <= self@.len(),
                want == (if by_count {
                    count_keys(self@)
                } else {
                    time_keys(self@)
                }),
                keys@ =~= want.take(i as int),
                texts_of(texts@) =~= paths(self@).take(i as int),
            decreases self@.len() - i,
        {
            let ghost before = texts@;
            texts.push(self.records[i].path.clone());
            assert(texts_of(texts@) =~= texts_of(before).push(self@[i as int].path));
            let k = if by_count {
                self.records[i].visit_count as i128
            } else {
                self.records[i].last_visited as i128
            };
            keys.push(Some(k));
            i += 1;
        }
        assert(keys@ =~= want);
        assert(texts_of(texts@) =~= paths(self@));
        let idx = rank_by_key(&keys, &texts, n);
        let r = self.pick(&idx);
        assert(is_ranking(want, paths(self@), n as int, idx@) && entries(r@) == picked(self@, idx@));
        r
    }

    /// Up to `n` records, the most visited first; the smaller path (in
    /// code-point order) first on equal counts.
    pub fn top(&self, n: usize) -> (r: Vec<DirectoryRecord>)
        ensures
            lists_ranked(self@, count_keys(self@), n as int, entries(r@)),
    {
        self.ranked(true, n)
    }

    /// Up to `n` records, the most recently visited first; the smaller path
    /// (in code-point order) first on equal times.
    pub fn recent(&self, n: usize) -> (r: Vec<DirectoryRecord>)
        ensures
            lists_ranked(self@, time_keys(self@), n as int, entries(r@)),
    {
        self.ranked(false, n)
    }

    /// A copy of the record for `path`, where there is one.
    pub fn lookup(&self, path: &str) -> (r: Option<DirectoryRecord>)
        requires
            self.wf(),
        ensures
            r is Some <==> has_path(self@, path@),
            r matches Some(d) ==> d@ == self@[position_of(self@, path@)],
    {
        match self.find(path) {
            Some(i) => Some(self.records[i].copied()),
            None => None,
        }
    }

    /// Every stored path, in storage order.
    pub fn all_paths(&self) -> (r: Vec<String>)
        ensures
            r@.len() == self@.len(),
            forall|i: int| 0 <= i < r@.len() ==> r@[i]@ == self@[i].path,
    {
        let mut r: Vec<String> = Vec::new();
        let mut i: usize = 0;
        while i < self.records.len()
            invariant
                i <= self@.len(),
                r@.len() == i,
                forall|j: int| 0 <= j < i ==> r@[j]@ == self@[j].path,
            decreases self@.len() - i,
        {
            r.push(self.records[i].path.clone());
            i += 1;
        }
        r
    }
}

/// Two visits to a path that the history does not hold leave exactly one
/// record for that path, with a count of two and the second visit's time.
pub proof fn lemma_two_visits(s: Seq<VisitEntry>, p: Seq<char>, t1: i64, t2: i64)
    requires
        history_wf(s),
        !has_path(s, p),
    ensures
        ({
            let s2 = visited(visited(s, p, t1), p, t2);
            &&& s2.len() == s.len() + 1
            &&& s2[s.len() as int] == VisitEntry { path: p, visit_count: 2, last_visited: t2 }
            &&& forall|i: int| 0 <= i < s2.len() && s2[i].path == p ==> i == s.len()
        }),
{
    let s1 = visited(s, p, t1);
    assert(s1 == s.push(VisitEntry { path: p, visit_count: 1, last_visited: t1 }));
    assert(s1[s.len() as int].path == p);
    assert(has_path(s1, p));
    let k = position_of(s1, p);
    assert(k == s.len()) by {
        if k < s.len() {
            assert(s1[k] == s[k]);
        }
    }
    let s2 = visited(s1, p, t2);
    assert forall|i: int| 0 <= i < s2.len() && s2[i].path == p implies i == s.len() by {
        if i < s.len() {
            assert(s2[i] == s[i]);
        }
    }
}

/// Where one record has strictly more visits than every other, the
/// one-entry listing by visit count is that record, wherever it is stored.
pub proof fn lemma_top_one_highest(s: Seq<VisitEntry>, i: int, r: Seq<VisitEntry>)
    requires
        s.len() <= usize::MAX,
        0 <= i < s.len(),
        forall|j: int| 0 <= j < s.len() && j != i ==> s[j].visit_count < s[i].visit_count,
        lists_ranked(s, count_keys(s), 1, r),
    ensures
        r == seq![s[i]],
{
    let keys = count_keys(s);
    let idx = choose|idx: Seq<usize>| is_ranking(keys, paths(s), 1, idx) && r == picked(s, idx);
    assert(keys[i] is Some);
    if !idx.contains(i as usize) {
        assert(idx.len() == 1);
        let j = idx[0] as int;
        assert(crate::ranking::precedes(keys, paths(s), j, i));
        assert(j != i);
    }
    let k = choose|k: int| 0 <= k < idx.len() && idx[k] == i as usize;
    assert(k == 0);
    assert(r[0] == s[i]);
    assert(r =~= seq![s[i]]);
}

/// A listing depends on the history alone: two listings of equal
/// histories by the same keys and limit are the same.
pub proof fn lemma_listing_unique(
    s: Seq<VisitEntry>,
    keys: Seq<Option<i128>>,
    limit: int,
    r1: Seq<VisitEntry>,
    r2: Seq<VisitEntry>,
)
    requires
        lists_ranked(s, keys, limit, r1),
        lists_ranked(s, keys, limit, r2),
    ensures
        r1 == r2,
{
    let idx1 = choose|idx: Seq<usize>| is_ranking(keys, paths(s), limit, idx) && r1 == picked(s, idx);
    let idx2 = choose|idx: Seq<usize>| is_ranking(keys, paths(s), limit, idx) && r2 == picked(s, idx);
    lemma_ranking_unique(keys, paths(s), limit, idx1, idx2);
}

} // verus!
