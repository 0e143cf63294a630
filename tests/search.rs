use pathranger::search::{fuzzy_search, rank_matches, search_directories, SEARCH_LIMIT};
use pathranger::visits::VisitStore;

fn strings(v: &[&str]) -> Vec<String> {
    v.iter().map(|s| s.to_string()).collect()
}

#[test]
fn fuzzy_search_ranks_matching_path() {
    let cands = strings(&["/home/u/work", "/tmp/other"]);
    let hits = fuzzy_search(&cands, "wrk");
    assert!(!hits.is_empty());
    assert_eq!(hits[0].path, "/home/u/work");
    assert!(hits.iter().all(|h| h.path != "/tmp/other") || hits.len() == 2);
}

#[test]
fn fuzzy_search_without_match_is_empty() {
    let cands = strings(&["/home/u/work"]);
    assert!(fuzzy_search(&cands, "zzz").is_empty());
    assert!(fuzzy_search(&Vec::new(), "a").is_empty());
}

#[test]
fn fuzzy_search_empty_query_keeps_order() {
    let cands = strings(&["/b", "/a", "/c"]);
    let hits = fuzzy_search(&cands, "");
    let paths: Vec<String> = hits.iter().map(|h| h.path.clone()).collect();
    assert_eq!(paths, strings(&["/a", "/b", "/c"]));
    assert!(hits.iter().all(|h| h.score == 0));
}

#[test]
fn rank_matches_breaks_ties_by_path() {
    let cands = strings(&["/b", "/a", "/b", "/ab"]);
    let scores = vec![Some(1), Some(1), Some(1), Some(2)];
    let hits = rank_matches(&cands, &scores, 10);
    let paths: Vec<String> = hits.iter().map(|h| h.path.clone()).collect();
    assert_eq!(paths, strings(&["/ab", "/a", "/b", "/b"]));
}

#[test]
fn search_directories_ties_by_path_not_storage() {
    let mut store = VisitStore::new();
    store.upsert_visit("/b", 1);
    store.upsert_visit("/a", 2);
    let hits = search_directories(&store, "");
    let paths: Vec<String> = hits.iter().map(|h| h.path.clone()).collect();
    assert_eq!(paths, strings(&["/a", "/b"]));
}

#[test]
fn fuzzy_search_caps_results() {
    let cands: Vec<String> = (0..15).map(|i| format!("/dir{}", i)).collect();
    let hits = fuzzy_search(&cands, "dir");
    assert_eq!(hits.len(), SEARCH_LIMIT);
    assert_eq!(SEARCH_LIMIT, 10);
}

#[test]
fn rank_matches_orders_by_score_then_position() {
    let cands = strings(&["/d0", "/d1", "/d2", "/d3", "/d4"]);
    let scores = vec![Some(5), None, Some(9), Some(5), Some(-2)];
    let hits = rank_matches(&cands, &scores, 10);
    let got: Vec<(String, i64)> = hits.iter().map(|h| (h.path.clone(), h.score)).collect();
    assert_eq!(
        got,
        vec![
            ("/d2".to_string(), 9),
            ("/d0".to_string(), 5),
            ("/d3".to_string(), 5),
            ("/d4".to_string(), -2),
        ]
    );
    let two = rank_matches(&cands, &scores, 2);
    assert_eq!(two.len(), 2);
    assert_eq!(two[1].path, "/d0");
}

#[test]
fn rank_matches_treats_missing_scores_as_no_match() {
    let cands = strings(&["/a", "/b", "/c"]);
    let scores = vec![None, Some(1)];
    let hits = rank_matches(&cands, &scores, 10);
    assert_eq!(hits.len(), 1);
    assert_eq!(hits[0].path, "/b");
    assert!(rank_matches(&cands, &vec![None, None, None], 10).is_empty());
}

#[test]
fn search_directories_uses_history() {
    let mut store = VisitStore::new();
    store.upsert_visit("/home/u/work", 1);
    store.upsert_visit("/tmp/other", 2);
    let hits = search_directories(&store, "wrk");
    assert_eq!(hits.len(), 1);
    assert_eq!(hits[0].path, "/home/u/work");
    assert!(hits[0].score > 0);
}
