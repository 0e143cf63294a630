//! Fuzzy search over visited paths: every candidate is scored against the
//! query, those that do not match are dropped, and the rest are listed best
//! score first, the smaller path first on equal scores.

use vstd::prelude::*;
use crate::ranking::{is_ranking, lemma_ranking_unique, rank_by_key, texts_of};
use crate::text::lex_lt;
use crate::visits::{paths, VisitStore};

verus! {

/// How many results a search lists at most.
pub const SEARCH_LIMIT: usize = 10;

/// The score that the skim matcher, with its default settings, gives
/// `pattern` against `choice`; `None` where the pattern does not match.
pub uninterp spec fn skim_score(choice: Seq<char>, pattern: Seq<char>) -> Option<i64>;

/// Relies on fuzzy_matcher::skim::SkimMatcherV2::default() and its
/// FuzzyMatcher::fuzzy_match: a score that depends on the two texts alone,
/// `None` where there is no match, and `Some(0)` for an empty pattern.
#[verifier::external_body]
fn skim_match(choice: &str, pattern: &str) -> (r: Option<i64>)
    ensures
        r == skim_score(choice@, pattern@),
        pattern@.len() == 0 ==> r == Some(0i64),
{
    let matcher = fuzzy_matcher::skim::SkimMatcherV2::default();
    fuzzy_matcher::FuzzyMatcher::fuzzy_match(&matcher, choice, pattern)
}

/// A path that matched a query, with its score.
#[derive(Debug)]
pub struct SearchHit {
    pub path: String,
    pub score: i64,
}

/// What a `SearchHit` holds, as mathematical values.
pub struct HitEntry {
    pub path: Seq<char>,
    pub score: i64,
}

impl View for SearchHit {
    type V = HitEntry;

    open spec fn view(&self) -> HitEntry {
        HitEntry { path: self.path@, score: self.score }
    }
}

/// The views of a sequence of hits.
pub open spec fn hit_entries(s: Seq<SearchHit>) -> Seq<HitEntry> {
    s.map_values(|h: SearchHit| h@)
}

/// Ranking keys: the score of candidate `i`, where it has one.
pub open spec fn score_keys(n: int, scores: Seq<Option<i64>>) -> Seq<Option<i128>> {
    Seq::new(
        n as nat,
        |i: int|
            if i < scores.len() && scores[i] is Some {
                Some(scores[i]->0 as i128)
            } else {
                None
            },
    )
}

/// `r` lists the best `limit` candidates that have a score, best score
/// first; on equal scores the smaller path (in code-point order) first, and
/// the earlier of two equal paths first.
pub open spec fn hits_ranked(
    candidates: Seq<Seq<char>>,
    scores: Seq<Option<i64>>,
    limit: int,
    r: Seq<HitEntry>,
) -> bool {
    exists|idx: Seq<usize>|
        {
            &&& is_ranking(score_keys(candidates.len() as int, scores), candidates, limit, idx)
            &&& r == idx.map_values(
                |i: usize| HitEntry { path: candidates[i as int], score: scores[i as int]->0 },
            )
        }
}

/// The skim scores of every candidate against `query`.
pub open spec fn skim_scores(candidates: Seq<Seq<char>>, query: Seq<char>) -> Seq<Option<i64>> {
    candidates.map_values(|c: Seq<char>| skim_score(c, query))
}

/// Ranks `candidates` by the given scores: candidate `i` has score
/// `scores[i]`, or none where that is `None` or missing. Lists the best
/// `limit` of those with a score.
pub fn rank_matches(candidates: &Vec<String>, scores: &Vec<Option<i64>>, limit: usize) -> (r: Vec<
    SearchHit,
>)
    ensures
        hits_ranked(texts_of(candidates@), scores@, limit as int, hit_entries(r@)),
{
    let n = candidates.len();
    let ghost want = score_keys(n as int, scores@);
    let mut keys: Vec<Option<i128>> = Vec::new();
    let mut i: usize = 0;
    while i < n
        invariant
            n == candidates@.len(),
            i <= n,
            want == score_keys(n as int, scores@),
            keys@ =~= want.take(i as int),
        decreases n - i,
    {
        let k = if i < scores.len() {
            match scores[i] {
                Some(v) => Some(v as i128),
                None => None,
            }
        } else {
            None
        };
        keys.push(k);
        i += 1;
    }
    assert(keys@ =~= want);
    let ghost cv = texts_of(candidates@);
    let idx = rank_by_key(&keys, candidates, limit);
    let mut r: Vec<SearchHit> = Vec::new();
    let mut k: usize = 0;
    while k < idx.len()
        invariant
            n == candidates@.len(),
            cv == texts_of(candidates@),
            want == score_keys(n as int, scores@),
            is_ranking(want, cv, limit as int, idx@),
            k <= idx@.len(),
            hit_entries(r@) =~= idx@.take(k as int).map_values(
                |i: usize| HitEntry { path: cv[i as int], score: scores@[i as int]->0 },
            ),
        decreases idx@.len() - k,
    {
        let j = idx[k];
        assert(want[j as int] is Some);
        let score = match scores[j] {
            Some(v) => v,
            None => 0,
        };
        let hit = SearchHit { path: candidates[j].clone(), score };
        let ghost before = r@;
        r.push(hit);
        assert(hit_entries(r@) =~= hit_entries(before).push(hit@));
        assert(idx@.take(k as int + 1) =~= idx@.take(k as int).push(j));
        k += 1;
    }
    assert(idx@.take(k as int) =~= idx@);
    assert(cv.len() == n);
    assert(is_ranking(score_keys(cv.len() as int, scores@), cv, limit as int, idx@));
    assert(hit_entries(r@) == idx@.map_values(
        |i: usize| HitEntry { path: cv[i as int], score: scores@[i as int]->0 },
    ));
    r
}

/// Scores every candidate against `query` and lists the best
/// `SEARCH_LIMIT` matches, best first.
pub fn fuzzy_search(candidates: &Vec<String>, query: &str) -> (r: Vec<SearchHit>)
    ensures
        hits_ranked(
            texts_of(candidates@),
            skim_scores(texts_of(candidates@), query@),
            SEARCH_LIMIT as int,
            hit_entries(r@),
        ),
{
    let mut scores: Vec<Option<i64>> = Vec::new();
    let mut i: usize = 0;
    while i < candidates.len()
        invariant
            i <= candidates@.len(),
            scores@ =~= skim_scores(texts_of(candidates@), query@).take(i as int),
        decreases candidates@.len() - i,
    {
        let s = skim_match(candidates[i].as_str(), query);
        scores.push(s);
        i += 1;
    }
    assert(scores@ =~= skim_scores(texts_of(candidates@), query@));
    rank_matches(candidates, &scores, SEARCH_LIMIT)
}

/// Fuzzy search over every path in the visit history: the best
/// `SEARCH_LIMIT` matches, best score first, the smaller path first on
/// equal scores.
pub fn search_directories(visits: &VisitStore, query: &str) -> (r: Vec<SearchHit>)
    ensures
        hits_ranked(
            paths(visits@),
            skim_scores(paths(visits@), query@),
            SEARCH_LIMIT as int,
            hit_entries(r@),
        ),
{
    let all = visits.all_paths();
    assert(texts_of(all@) =~= paths(visits@));
    fuzzy_search(&all, query)
}

/// Every listed hit is a candidate that matched, with its own score; so
/// where no candidate matches, nothing is listed.
pub proof fn lemma_hits_match(
    candidates: Seq<Seq<char>>,
    scores: Seq<Option<i64>>,
    limit: int,
    r: Seq<HitEntry>,
)
    requires
        hits_ranked(candidates, scores, limit, r),
    ensures
        forall|k: int|
            0 <= k < r.len() ==> exists|i: int|
                0 <= i < candidates.len() && i < scores.len() && #[trigger] r[k].path
                    == candidates[i] && scores[i] == Some(r[k].score),
        (forall|i: int| 0 <= i < scores.len() ==> scores[i] is None) ==> r.len() == 0,
        forall|k1: int, k2: int|
            #![trigger r[k1], r[k2]]
            0 <= k1 < k2 < r.len() ==> r[k1].score > r[k2].score || (r[k1].score == r[k2].score
                && (lex_lt(r[k1].path, r[k2].path) || r[k1].path == r[k2].path)),
{
    let keys = score_keys(candidates.len() as int, scores);
    let idx = choose|idx: Seq<usize>|
        {
            &&& is_ranking(keys, candidates, limit, idx)
            &&& r == idx.map_values(
                |i: usize| HitEntry { path: candidates[i as int], score: scores[i as int]->0 },
            )
        };
    assert forall|k: int| 0 <= k < r.len() implies exists|i: int|
        0 <= i < candidates.len() && i < scores.len() && #[trigger] r[k].path == candidates[i]
            && scores[i] == Some(r[k].score) by {
        let i = idx[k] as int;
        assert(keys[i] is Some);
        assert(r[k].path == candidates[i]);
    }
    if r.len() > 0 {
        assert(keys[idx[0] as int] is Some);
    }
    assert forall|k1: int, k2: int| #![trigger r[k1], r[k2]] 0 <= k1 < k2 < r.len() implies r[k1].score > r[k2].score || (
    r[k1].score == r[k2].score && (lex_lt(r[k1].path, r[k2].path) || r[k1].path == r[k2].path)) by {
        let i1 = idx[k1] as int;
        let i2 = idx[k2] as int;
        assert(crate::ranking::precedes(keys, candidates, i1, i2));
        assert(keys[i1] is Some && keys[i2] is Some);
        assert(r[k1].score == scores[i1]->0 && r[k2].score == scores[i2]->0);
        assert(r[k1].path == candidates[i1] && r[k2].path == candidates[i2]);
        assert(keys[i1]->0 == scores[i1]->0 as i128);
        assert(keys[i2]->0 == scores[i2]->0 as i128);
    }
}

/// A search result depends on the candidates and their scores alone: two
/// results for equal inputs are the same.
pub proof fn lemma_hits_unique(
    candidates: Seq<Seq<char>>,
    scores: Seq<Option<i64>>,
    limit: int,
    r1: Seq<HitEntry>,
    r2: Seq<HitEntry>,
)
    requires
        hits_ranked(candidates, scores, limit, r1),
        hits_ranked(candidates, scores, limit, r2),
    ensures
        r1 == r2,
{
    let keys = score_keys(candidates.len() as int, scores);
    let idx1 = choose|idx: Seq<usize>|
        {
            &&& is_ranking(keys, candidates, limit, idx)
            &&& r1 == idx.map_values(
                |i: usize| HitEntry { path: candidates[i as int], score: scores[i as int]->0 },
            )
        };
    let idx2 = choose|idx: Seq<usize>|
        {
            &&& is_ranking(keys, candidates, limit, idx)
            &&& r2 == idx.map_values(
                |i: usize| HitEntry { path: candidates[i as int], score: scores[i as int]->0 },
            )
        };
    lemma_ranking_unique(keys, candidates, limit, idx1, idx2);
}

} // verus!
